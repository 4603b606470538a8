use lss_collector::db::Retention;
use lss_collector::query::{
    all_requests_since, all_time_since, bad, bucket_middle, cache_share_from, columns_of, db_err,
    fill_status_series, gate_host, gateway, hist, metric_list, parse_query, percent_decode,
    probe_ip_of, probe_points, probe_user_of, requests_since, series, series_reads, series_span,
    sorted, tokens_doc, GatewayRead, Loopback, MetricFacts, MetricRead, SeriesAsk, SpanRead, Tier,
    TokenRead, TokenRow,
};

const DAY: i64 = 86_400;
const KEEP: Retention = Retention { raw: DAY, m1: 14 * DAY, m10: 90 * DAY };
const T0: i64 = 1_800_000_000;

fn strings(v: &[&str]) -> Vec<String> {
    v.iter().map(|s| s.to_string()).collect()
}

#[test]
fn query_strings() {
    let q = parse_query("/series?metrics=queue%3Amax%2Cdecode_tok_s&range=6h&step=auto&x");
    assert_eq!(q.get("metrics").unwrap(), "queue:max,decode_tok_s");
    assert_eq!(
        (q.get("range").unwrap().as_str(), q.get("step").unwrap().as_str(), q.get("x").unwrap().as_str()),
        ("6h", "auto", "")
    );
    assert!(parse_query("/series").is_empty());
    assert_eq!(percent_decode("100%"), "100%");
}

#[test]
fn percent_signs_plus_signs_and_broken_characters_are_read() {
    assert_eq!(percent_decode("a+b%20c"), "a b c");
    assert_eq!(percent_decode("%E2%82%AC"), "\u{20ac}");
    assert_eq!(percent_decode("%zz%4"), "%zz%4");
    assert_eq!(percent_decode("%+4"), "% 4", "a sign is no digit");
    // half a character is shown as one that cannot be read
    assert_eq!(percent_decode("%E2%82"), "\u{fffd}");
    assert_eq!(percent_decode("plain-text_1.0~"), "plain-text_1.0~");
}

#[test]
fn the_last_value_of_a_name_counts() {
    let q = parse_query("/x?a=1&a=2");
    assert_eq!(q.get("a").as_deref(), Some("2"));
    assert_eq!(q.get("b"), None);
}

#[test]
fn the_probe_user_is_the_loopback_address_the_gate_sees() {
    assert_eq!(gate_host("http://127.0.0.1:8096"), "127.0.0.1");
    assert_eq!(probe_user_of("http://127.0.0.1:8096", Some(Loopback::V4)).as_deref(), Some("127.0.0.1"));
    assert_eq!(probe_user_of("http://localhost:8096/", None).as_deref(), Some("127.0.0.1"));
    assert_eq!(gate_host("http://[::1]:8096"), "::1");
    assert_eq!(probe_user_of("http://[::1]:8096", Some(Loopback::V6)).as_deref(), Some("::1"));
    assert_eq!(gate_host("http://gate.internal:8096"), "gate.internal");
    assert_eq!(probe_user_of("http://gate.internal:8096", None), None, "a named host: the address the gateway sees cannot be known from here");
    assert_eq!(gate_host("http://192.0.2.7:8096"), "192.0.2.7");
    assert_eq!(probe_user_of("http://192.0.2.7:8096", None), None);
}

#[test]
fn the_probe_address_comes_from_the_gate_url() {
    assert_eq!(probe_ip_of("http://127.0.0.1:8096"), "127.0.0.1");
    assert_eq!(probe_ip_of("http://localhost:8096/"), "127.0.0.1");
    assert_eq!(probe_ip_of("http://LocalHost:8096/"), "127.0.0.1");
    assert_eq!(probe_ip_of("http://192.0.2.32:8096"), "192.0.2.32");
    assert_eq!(probe_ip_of("http://[::1]:8096"), "::1");
    assert_eq!(probe_ip_of("http://gate.internal:8096"), "gate.internal");
}

#[test]
fn errors_are_json_with_their_reason() {
    assert_eq!(bad("a \"b\""), (400, "{\"error\":\"a \\\"b\\\"\",\"v\":1}\n".into()));
    assert_eq!(db_err("locked").0, 500);
    assert!(db_err("locked").1.contains("locked"));
}

#[test]
fn unknown_metrics_are_named_and_bad_requests_are_400() {
    // a metric that nothing recorded is asked for like the others, and not known from the start
    match series(&parse_query("/series?metrics=decode_tok_s,no_such_thing&range=1h"), Some(3600), None) {
        SeriesAsk::Read(m, range, _) => assert_eq!((m, range), (strings(&["decode_tok_s", "no_such_thing"]), 3600)),
        _ => panic!("a read"),
    }
    let known = MetricFacts { probe: false, minute_native: false, recorded: true };
    let unknown = MetricFacts { recorded: false, ..known };
    assert_eq!(series_reads(Tier::Raw, &vec![known, unknown]).0, vec![MetricRead::Samples(true), MetricRead::Samples(false)]);
    assert!(matches!(series(&parse_query("/series?metrics=x&range=soon"), None, None), SeriesAsk::Reject((400, _))));
    assert!(matches!(series(&parse_query("/series?metrics=x&step=fast"), None, None), SeriesAsk::Reject((400, _))));
    let many: Vec<String> = (0..130).map(|i| format!("m{i}")).collect();
    assert!(matches!(series(&parse_query(&format!("/series?metrics={}", many.join(","))), None, None), SeriesAsk::Reject((400, _))));
    assert!(matches!(series(&parse_query("/series"), None, None), SeriesAsk::List));
    let (code, list) = metric_list(&strings(&["decode_tok_s", "queue"]), &strings(&["1h", "7d"]), 600);
    assert_eq!(code, 200);
    assert!(list.contains("\"decode_tok_s\"") && list.contains("\"c1_tok_s\"") && list.contains("\"7d\""), "{list}");
}

#[test]
fn a_series_request_is_read_with_its_range_and_step() {
    match series(&parse_query("/series?metrics=decode_tok_s,%20queue:avg,&range=6h&step=60"), Some(21_600), Some(60)) {
        SeriesAsk::Read(m, range, step) => {
            assert_eq!((m, range, step), (strings(&["decode_tok_s", "queue:avg"]), 21_600, Some(60)));
        }
        _ => panic!("a read"),
    }
    match series(&parse_query("/series?metrics=x&step=auto"), None, Some(5)) {
        SeriesAsk::Read(_, range, step) => assert_eq!((range, step), (3600, None)),
        _ => panic!("a read"),
    }
}

#[test]
fn each_metric_is_read_where_it_is_kept() {
    let plain = MetricFacts { probe: false, minute_native: false, recorded: true };
    let probe = MetricFacts { probe: true, ..plain };
    let minute = MetricFacts { minute_native: true, ..plain };
    let unknown = MetricFacts { recorded: false, ..plain };
    assert_eq!(
        series_reads(Tier::Raw, &vec![plain, probe, minute, unknown]),
        (vec![MetricRead::Samples(true), MetricRead::Probes, MetricRead::Rollup(60), MetricRead::Samples(false)], true, true)
    );
    assert_eq!(series_reads(Tier::M1, &vec![plain]), (vec![MetricRead::Rollup(60)], false, false));
    assert_eq!(series_reads(Tier::M10, &vec![minute]), (vec![MetricRead::Rollup(600)], false, false));
    assert_eq!(series_span(1000, 480, 180), (1000 + 480 * 180, 990));
}

#[test]
fn probes_are_a_series_with_valid_and_invalid_marked() {
    assert_eq!(probe_points(true, true), (true, false, false));
    assert_eq!(probe_points(false, true), (false, true, true));
    // one that was skipped has no speed
    assert_eq!(probe_points(false, false), (false, true, false));
    assert_eq!(probe_points(true, false), (false, false, false));
}

#[test]
fn the_list_of_metrics_is_sorted_and_names_the_probes() {
    let (code, body) = metric_list(&strings(&["queue", "decode_tok_s"]), &strings(&["1h", "7d"]), 600);
    assert_eq!(code, 200);
    assert_eq!(
        body,
        "{\"aggregates\":[\"avg\",\"min\",\"max\"],\"max_points\":600,\"metrics\":[\"c1_invalid\",\"c1_invalid_tok_s\",\"c1_tok_s\",\"decode_tok_s\",\"queue\"],\"ranges\":[\"1h\",\"7d\"],\"v\":1}\n"
    );
    assert_eq!(sorted(&strings(&["b", "", "a\u{e9}", "a", "B"])), strings(&["", "B", "a", "a\u{e9}", "b"]));
}

#[test]
fn the_status_series_gets_the_histogram_p99s_and_the_priced_dollars_per_hour() {
    let rows = vec![(T0, Some(620.0)), (T0 + 120, Some(2_050.0))];
    let s = fill_status_series(T0, 30, 120, &rows);
    assert_eq!((s[0], s[1]), (Some(620.0), Some(620.0)), "a minute's p99 fills both of its 30 s buckets");
    assert_eq!((s[2], s[3]), (None, None), "a minute with no rollup stays null - never carried forward");
    assert_eq!((s[4], s[5]), (Some(2_050.0), Some(2_050.0)));
    assert_eq!(s.len(), 120, "on the status grid, every bucket present");
    let one = fill_status_series(T0, 30, 120, &vec![(T0 + 60, Some(14.2))]);
    assert_eq!((one[1], one[2], one[3]), (None, Some(14.2), Some(14.2)));
    assert!(fill_status_series::<f64>(T0, 30, 120, &vec![]).iter().all(Option::is_none));
    // a grid that starts inside a minute: each bucket has the value of the minute it starts in
    let between = fill_status_series(T0 + 45, 30, 4, &vec![(T0, Some(1)), (T0 + 60, Some(2))]);
    assert_eq!(between, vec![Some(1), Some(2), Some(2), None]);
    assert_eq!(bucket_middle(T0, 30, 2), T0 + 75);
}

#[test]
fn a_histogram_needs_a_metric_it_knows() {
    let ok = hist(&parse_query("/hist?metric=ttft&range=1h"), true, Some(3600), KEEP);
    assert_eq!(ok, Ok(("ttft".to_string(), 3600)));
    assert_eq!(hist(&parse_query("/hist?metric=ttft&range=365d"), true, Some(365 * DAY), KEEP), Ok(("ttft".to_string(), 90 * DAY)));
    let refused = hist(&parse_query("/hist?metric=nope"), false, None, KEEP).unwrap_err();
    assert_eq!(refused.0, 400);
    assert!(refused.1.contains("metric must be one of ttft, e2e, itl, queue_time, prompt_tokens, gen_tokens"));
    assert_eq!(hist(&parse_query("/hist"), true, None, KEEP).unwrap_err().0, 400);
    assert_eq!(hist(&parse_query("/hist?metric=ttft&range=soon"), true, None, KEEP).unwrap_err().0, 400);
    // rows of another layout have no column, rows outside go to the ends
    let rows = vec![(T0, true), (T0 + 599, true), (T0 - 5, true), (T0 + 100_000, true), (T0, false)];
    assert_eq!(columns_of(&rows, T0, 300, 4), vec![Some(0), Some(1), Some(0), Some(3), None]);
}

#[test]
fn the_gateway_is_answered_from_samples_up_to_an_hour_and_from_buckets_beyond() {
    let now = T0 + 3_661;
    assert_eq!(
        gateway(now, &parse_query("/gateway?range=1h"), Some(3600), KEEP),
        Ok(GatewayRead { range: 3600, samples: true, from: now - 3599, until: now + 1, probes_from: now - 3599 })
    );
    assert_eq!(
        gateway(now, &parse_query("/gateway?range=24h"), Some(DAY), KEEP),
        Ok(GatewayRead { range: DAY, samples: false, from: T0 - DAY + 3_600, until: now + 1, probes_from: now - DAY + 1 })
    );
    assert_eq!(gateway(now, &parse_query("/gateway?range=x"), None, KEEP).unwrap_err().0, 400);
}

/// What a row of the document is summed from, of one that is no ledger's.
fn span_of(row: &TokenRow) -> SpanRead {
    match row.read {
        TokenRead::Span(read) => read,
        TokenRead::Ledger(_) => panic!("a span"),
    }
}

#[test]
fn a_span_of_tokens_is_summed_once() {
    let now = T0 + 3_661;
    let rows = tokens_doc(now, now - 7200, 0, None);
    let spans: Vec<SpanRead> = rows[..4].iter().map(span_of).collect();
    assert_eq!(spans[0], SpanRead { secs: 3600, tens_from: None, minutes_from: now - 3600, tier: 60 });
    assert_eq!(spans[1], SpanRead { secs: DAY, tens_from: None, minutes_from: now - DAY, tier: 60 });
    assert_eq!(spans[2], SpanRead { secs: 7 * DAY, tens_from: Some(now - 7 * DAY), minutes_from: T0 + 3_600 - DAY, tier: 600 });
    assert_eq!(spans[3], SpanRead { secs: 7200, tens_from: None, minutes_from: now - 7200, tier: 60 });
    assert!(rows[..4].iter().all(|r| r.secs == span_of(r).secs));
}

#[test]
fn token_totals_come_from_the_rollup_tiers_and_the_ledger() {
    let now = T0 + 30 * 3600 - 5;
    let doc = tokens_doc(now, now - 7200, T0, Some(T0));
    assert_eq!(doc.iter().map(|r| r.name.as_str()).collect::<Vec<_>>(), ["1h", "24h", "7d", "today", "all"]);
    // 30 hours of closed buckets, each minute 12 samples x 500 prompt tokens; the one in progress is
    // not stored yet
    let minutes: Vec<(i64, f64)> = (0..30 * 60 - 1).map(|k| (T0 + k * 60, 6_000.0)).collect();
    let tens: Vec<(i64, f64)> = (0..30 * 6 - 1).map(|k| (T0 + k * 600, 60_000.0)).collect();
    let sum = |name: &str| -> f64 {
        let read = span_of(doc.iter().find(|r| r.name == name).unwrap());
        let of = |rows: &[(i64, f64)], from: i64, to: i64| rows.iter().filter(|r| from <= r.0 && r.0 < to).map(|r| r.1).sum::<f64>();
        let older = read.tens_from.map_or(0.0, |from| of(&tens, from, read.minutes_from));
        older + of(&minutes, read.minutes_from, now + 1)
    };
    assert_eq!(sum("1h"), 59.0 * 6000.0);
    assert_eq!(sum("today"), 119.0 * 6000.0);
    assert!(sum("24h") > 23.0 * 360_000.0 && sum("7d") >= sum("24h"), "a week is never less than its last day");
    // all time comes from the ledger, not from what the tiers still hold
    assert_eq!(doc[4].secs, now - T0);
    assert!(matches!(doc[4].read, TokenRead::Ledger(Some(before)) if before == T0 - 599));
    // no ledger yet: it reaches back to the first token that is stored
    let doc = tokens_doc(now, now - 7200, 0, Some(T0 + 60));
    assert_eq!(doc[4].secs, now - T0 - 60);
    assert!(matches!(doc[4].read, TokenRead::Ledger(None)));
}

#[test]
fn series_are_aligned_capped_and_tiered() {
    let now = T0 + 30 * 3600 - 5;
    let metrics = strings(&["decode_tok_s", "queue", "queue:avg", "prompt_tok_s"]);
    let recorded = MetricFacts { probe: false, minute_native: false, recorded: true };
    for (range, secs, tier, read) in [
        ("15m", 900, Tier::Raw, MetricRead::Samples(true)),
        ("1h", 3_600, Tier::Raw, MetricRead::Samples(true)),
        ("6h", 21_600, Tier::M1, MetricRead::Rollup(60)),
        ("24h", DAY, Tier::M1, MetricRead::Rollup(60)),
        ("7d", 7 * DAY, Tier::M10, MetricRead::Rollup(600)),
    ] {
        let q = parse_query(&format!("/series?metrics=decode_tok_s,queue,queue:avg,prompt_tok_s&range={range}"));
        match series(&q, Some(secs), None) {
            SeriesAsk::Read(names, asked, step) => assert_eq!((names, asked, step), (metrics.clone(), secs, None), "{range}"),
            _ => panic!("a read"),
        }
        let (reads, _, _) = series_reads(tier, &vec![recorded; 4]);
        assert_eq!(reads, vec![read; 4], "{range}");
    }
    // a day is 480 points of three minutes, the last of them the one in progress
    let start = now - now % 180 - 479 * 180;
    let (end, from) = series_span(start, 480, 180);
    assert!(end > now && end - now <= 180 && from <= start);
    // an explicit fine step is read as it stands
    match series(&parse_query("/series?metrics=decode_tok_s&range=24h&step=5"), Some(DAY), Some(5)) {
        SeriesAsk::Read(_, asked, step) => assert_eq!((asked, step), (DAY, Some(5))),
        _ => panic!("a read"),
    }
}

#[test]
fn hist_and_gateway_answers() {
    let now = T0 + 3600;
    assert_eq!(hist(&parse_query("/hist?metric=ttft&range=1h"), true, Some(3600), KEEP), Ok(("ttft".into(), 3600)));
    // two stored minutes, in two of the sixty columns
    let start = now - now % 60 - 59 * 60;
    let rows = vec![(T0 + 10 * 60, true), (T0 + 40 * 60, true)];
    assert_eq!(columns_of(&rows, start, 60, 60), vec![Some(9), Some(39)]);
    assert_eq!(hist(&parse_query("/hist?metric=nope"), false, None, KEEP).unwrap_err().0, 400);
    assert_eq!(hist(&parse_query("/hist?metric=prompt_tokens&range=1h"), true, Some(3600), KEEP), Ok(("prompt_tokens".into(), 3600)));
    assert!(hist(&parse_query("/hist?metric=itl"), true, None, KEEP).is_ok());

    // gateway: an hour from the samples, a day from the ten-minute buckets plus the open one
    let log = 24;
    let samples = vec![(now - 100, log)];
    let buckets = vec![(now - 7200, log)];
    let open = (now - 300, log);
    let total = |rows: &[(i64, u64)], read: &GatewayRead| rows.iter().filter(|r| read.from <= r.0 && r.0 < read.until).map(|r| r.1).sum::<u64>();
    let hour = gateway(now, &parse_query("/gateway?range=1h"), Some(3600), KEEP).unwrap();
    assert!(hour.samples);
    assert_eq!(total(&samples, &hour), 24);
    let day = gateway(now, &parse_query("/gateway?range=24h"), Some(DAY), KEEP).unwrap();
    assert!(!day.samples);
    assert_eq!(total(&buckets, &day) + total(&[open], &day), 48);
    // a bucket stored earlier in the day is read too
    assert_eq!(total(&[(now - 6 * 3600, log), (now - 7200, log)], &day), 48);
}

#[test]
fn a_counter_that_began_late_says_from_when_it_counts() {
    let now = T0;
    let hours = |h: i64| now - h * 3600;
    // the request counter is 5 h old, the token counters 19 h
    assert_eq!(requests_since(now, DAY, 60, Some(hours(5)), Some(hours(19))), Some(hours(5)));
    assert_eq!(requests_since(now, 3600, 60, Some(hours(5)), Some(hours(19))), None, "the last hour is fully covered");
    assert_eq!(requests_since(now, DAY, 60, None, Some(hours(19))), None);
    assert_eq!(cache_share_from(now, DAY, Some(hours(5)), Some(hours(19))), Some(hours(5)));
    assert_eq!(cache_share_from(now, DAY, Some(hours(30)), Some(hours(29))), Some(hours(24)));
    assert_eq!(cache_share_from(now, DAY, None, Some(hours(19))), None);
    // the ledger began 5 h ago: buckets that ended before it are added
    assert_eq!(all_time_since(hours(5), Some(hours(19))), (hours(19), Some(hours(5) - 599)));
    assert_eq!(all_time_since(0, Some(hours(19))), (hours(19), None));
    assert_eq!(all_time_since(hours(5), None), (hours(5), Some(hours(5) - 599)));
    assert_eq!(all_requests_since(Some(hours(5)), hours(19)), Some(hours(5)));
    assert_eq!(all_requests_since(Some(hours(19) + 600), hours(19)), None);
}
