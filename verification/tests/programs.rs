use lss_collector::alert::{alert_outcome, flush_said, last_line, sink_args, take_late_deliveries, Job};
use lss_collector::cli::{
    after_send, command, find_row, is_awaited_row, loopback_listener, row_in_status,
    send_test_alert_attempts, AfterSend, Args, Command, Sent, Task,
};
use lss_collector::cmd::{
    captured, line_text, run, run_env, stream_lines, CmdOutput, Guard, Ran, StreamStats, MAX_CAPTURE,
};
use lss_collector::http::test_alert;

fn strings(v: &[&str]) -> Vec<String> {
    v.iter().map(|s| s.to_string()).collect()
}

fn output(stdout: &str, success: bool) -> CmdOutput {
    CmdOutput { stdout: stdout.into(), stderr: "oops".into(), success }
}

#[test]
fn captures_output_and_exit_status() {
    let mut g = Guard::new();
    let o = run(&mut g, "sh", Ran::Ended(output("hi\n", false))).unwrap();
    assert_eq!((o.stdout.as_str(), o.stderr.as_str(), o.success), ("hi\n", "oops", false));
    assert!(!g.busy);
    assert!(run_env(&mut g, "sh", Ran::Ended(output("", true))).is_ok());
}

#[test]
fn a_hung_command_times_out_and_is_not_started_twice() {
    let mut g = Guard::new();
    assert_eq!(run(&mut g, "sleep", Ran::TimedOut(3)).err().as_deref(), Some("sleep: timed out after 3s"));
    assert!(g.busy, "the stuck one still holds it");
    assert_eq!(run(&mut g, "sleep", Ran::Ended(output("", true))).err().as_deref(), Some("sleep: previous invocation is still stuck"));
    g.leave();
    assert!(run(&mut g, "sleep", Ran::Ended(output("", true))).is_ok());
}

#[test]
fn missing_binary_is_an_error_not_a_panic() {
    let mut g = Guard::new();
    assert_eq!(run(&mut g, "/no/such/binary", Ran::NotStarted("No such file or directory".into())).err().as_deref(), Some("/no/such/binary: No such file or directory"));
    assert!(!g.busy, "a program that never ran is not stuck");
}

#[test]
fn large_output_does_not_deadlock() {
    let mut g = Guard::new();
    let stdout = captured(&vec![b'x'; 2_000_000]);
    let o = run(&mut g, "sh", Ran::Ended(CmdOutput { stdout, stderr: String::new(), success: true })).unwrap();
    assert_eq!(o.stdout.len(), 2_000_000);
    assert!(!g.busy);
}

#[test]
fn capture_is_capped_but_the_child_still_completes() {
    let bytes = vec![b'x'; MAX_CAPTURE + 10];
    assert_eq!(captured(&bytes).len(), MAX_CAPTURE);
    assert_eq!(captured(&vec![b'a', 0xff]), "a\u{fffd}");
}

#[test]
fn stream_lines_sees_every_line_without_holding_them() {
    let mut s = StreamStats::new();
    let mut sum = 0;
    for n in 1..=2_000 {
        assert!(s.takes_line(10_000));
        sum += line_text(&format!("{n}\r\n").into_bytes()).parse::<i64>().unwrap();
    }
    assert_eq!(sum, 2_001_000);
    assert_eq!(stream_lines("seq", s, false, 10), Ok(StreamStats { lines: 2_000, truncated: false }));
    assert_eq!(line_text(&b"a \n\n\r".to_vec()), "a ");
}

#[test]
fn stream_lines_stops_at_the_cap_and_at_the_deadline() {
    let mut s = StreamStats::new();
    let seen = (0..9).filter(|_| s.takes_line(5)).count();
    assert_eq!(seen, 5);
    assert_eq!(stream_lines("yes", s, false, 5), Ok(StreamStats { lines: 5, truncated: true }));
    let mut s = StreamStats::new();
    assert!(s.takes_line(10));
    assert_eq!(stream_lines("sh", s, true, 1), Err("sh: timed out after 1s (1 lines read)".into()));
}

#[test]
fn late_deliveries_are_read_once() {
    assert_eq!(take_late_deliveries("7\n  9 \nnot a number\n\n-1\n"), vec![7, 9, -1]);
    assert_eq!(take_late_deliveries(""), Vec::<i64>::new());
}

#[test]
fn the_worker_runs_the_sink_marks_delivery_and_flushes() {
    let job = Job::Alert { id: 12, severity: "warn".into(), message: "disk is full".into() };
    assert_eq!(sink_args(&job), (strings(&["warn", "disk is full"]), Some("12".into())));
    assert_eq!(sink_args(&Job::Flush), (strings(&["--flush"]), None));
    assert_eq!(alert_outcome(&Ok(output("trying mail\n delivered=1 mail=ok \n\n", true))), (true, "delivered=1 mail=ok".into()));
    assert_eq!(alert_outcome(&Ok(output("delivered=0\n", false))), (false, "delivered=0".into()));
    assert_eq!(alert_outcome(&Err("stuck".into())), (false, String::new()));
    assert_eq!(flush_said("flushed=0 spool=0\n"), None, "silent while there is nothing spooled");
    assert_eq!(flush_said("flushed=2 spool=0\n").as_deref(), Some("flushed=2 spool=0"));
    assert_eq!(last_line(" \n\t\n"), "");
}

const USAGE: &str = "usage";

fn started(argv: &[&str]) -> Args {
    match command(&strings(argv), USAGE) {
        Command::Start(a) => a,
        _ => panic!("a start"),
    }
}

fn died(argv: &[&str]) -> String {
    match command(&strings(argv), USAGE) {
        Command::Die(m) => m,
        _ => panic!("refused"),
    }
}

#[test]
fn the_arguments_say_what_is_done() {
    assert!(matches!(command(&strings(&["cost-setup", "--bogus"]), USAGE), Command::CostSetup));
    assert!(matches!(command(&strings(&["setup"]), USAGE), Command::Setup));
    assert!(matches!(command(&strings(&["--detect", "-V", "--bogus"]), USAGE), Command::Version));
    assert!(matches!(command(&strings(&["--version"]), USAGE), Command::Version));
    assert!(matches!(command(&strings(&["-h"]), USAGE), Command::Help));
    assert_eq!(died(&["--config"]), "--config needs a path");
    assert_eq!(died(&["--test-alert"]), "--test-alert needs a message");
    assert_eq!(died(&["--check-config", "setup"]), "unknown argument setup\nusage");
    let a = started(&[]);
    assert_eq!((a.config_path("/home/me").as_str(), a.task()), ("/home/me/.config/lss/collector.toml", Task::Collect));
    assert_eq!(a.config_missing("/home/me/.config/lss/collector.toml", "not found"), None, "the built-in one does");
    let a = started(&["--config", "/a", "--config", "/b", "--test-alert", "--detect"]);
    assert_eq!((a.config_path("/home/me").as_str(), a.test_alert.as_deref(), a.task()), ("/b", Some("--detect"), Task::TestAlert));
    assert_eq!(a.config_missing("/b", "not found").as_deref(), Some("/b: not found"));
    assert_eq!(started(&["--detect", "--check-config"]).task(), Task::ShowConfig);
    assert_eq!(started(&["--detect", "--test-alert", "x"]).task(), Task::Detect);
}

#[test]
fn a_test_alert_is_sent_and_waited_for() {
    assert_eq!(loopback_listener(&vec![false, true, true]), Some(1));
    assert_eq!(loopback_listener(&vec![false]), None);
    match after_send("127.0.0.1:8099", &Sent::Accepted("{\"queued\":true,\"message\":\"[TEST] hi\"}\n".into())) {
        AfterSend::Wait(m) => assert_eq!(m, "[TEST] hi"),
        _ => panic!("it waits"),
    }
    match after_send("127.0.0.1:8099", &Sent::Accepted("not json".into())) {
        AfterSend::Wait(m) => assert_eq!(m, ""),
        _ => panic!("it waits"),
    }
    match after_send("127.0.0.1:8099", &Sent::Refused(429, " too many \n".into())) {
        AfterSend::End(code, m) => assert_eq!((code, m.as_str()), (1, "collector refused the test alert: HTTP 429 too many")),
        _ => panic!("it ends"),
    }
    match after_send("127.0.0.1:8099", &Sent::Unreachable("refused".into())) {
        AfterSend::End(code, m) => assert_eq!((code, m.as_str()), (2, "cannot reach the running collector on 127.0.0.1:8099: refused")),
        _ => panic!("it ends"),
    }
    assert_eq!((send_test_alert_attempts(5), send_test_alert_attempts(0)), (30, 14));
    let status = "{\"alerts\": [{\"rule\": \"test\", \"message\": \"[TEST] hi\", \"ts\": 98}, {\"rule\": \"disk\", \"message\": \"[TEST] hi\", \"ts\": 100}, {\"rule\": \"test\", \"message\": \"[TEST] hi\", \"ts\": 99}]}";
    assert_eq!(row_in_status(status, "test", "[TEST] hi", 100).as_deref(), Some("{\"message\":\"[TEST] hi\",\"rule\":\"test\",\"ts\":99}"));
    assert_eq!(row_in_status(status, "test", "[TEST] hi", 101), None, "an older one is not it");
    assert_eq!(row_in_status(status, "test", "[TEST] other", 100), None);
    assert_eq!(row_in_status("{\"alerts\": 3}", "test", "x", 0), None);
    assert_eq!(row_in_status("nonsense", "test", "x", 0), None);
    assert_eq!(find_row(&vec![], "test", "x", 0), None);
}

#[test]
fn the_message_that_is_waited_for_is_the_one_that_was_queued() {
    let mut pending: Vec<String> = Vec::new();
    let (code, _, body) = test_alert(true, true, true, "say \"hi\"\\ ", "test_alert", &mut pending);
    assert_eq!(code, 202);
    match after_send("127.0.0.1:8099", &Sent::Accepted(body)) {
        AfterSend::Wait(want) => assert_eq!(want, "[TEST] say \"hi\"\\"),
        AfterSend::End(..) => panic!("not waited for"),
    }
    let row = "{\"message\":\"[TEST] say \\\"hi\\\"\\\\\",\"rule\":\"test_alert\",\"ts\":-5}";
    assert!(is_awaited_row(row, "test_alert", "[TEST] say \"hi\"\\", -4));
    assert!(!is_awaited_row(row, "test_alert", "[TEST] say \"hi\"\\", -3));
    assert!(!is_awaited_row(row, "other", "[TEST] say \"hi\"\\", -4));
}
