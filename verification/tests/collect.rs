use lss_collector::collect::{
    amd_reading, apple_reading, authed, backfill_script, engine_cmdline, find_gpu_source, gate_reply,
    host_name, hot_journal_script, hot_window, http_get, inspected, is_under, listener_pid,
    pid_from_ss, serve_container_name, set_engine_auth, short_err, smi_reading, smi_said,
    xid_scan_gate, EngineAuth, Fetched, GpuSource, Poller, Programs, XidScanGate,
    HOT_LOOKBACK_SECS,
};
use lss_collector::detect::EngineKind;

#[test]
fn the_hot_path_window_is_bounded() {
    let now = 1_000_000;
    // normal operation: 5 s polls, 5 s overlap
    assert_eq!(hot_window(now - 5, now), (now - 10, None));
    assert_eq!(hot_window(now - HOT_LOOKBACK_SECS + 5, now), (now - HOT_LOOKBACK_SECS, None));
    // the journal was unreadable for 3 hours: the hot path still reads 10 minutes, and the rest goes
    // to the streamed back-fill
    let (since, gap) = hot_window(now - 10_800, now);
    assert_eq!(since, now - HOT_LOOKBACK_SECS);
    assert_eq!(gap, Some((now - 10_805, now - HOT_LOOKBACK_SECS)));
    // a fresh start (last_ok = start time) never asks for 7 days
    assert!(now - hot_window(now, now).0 <= HOT_LOOKBACK_SECS);
}

#[test]
fn the_hot_path_command_caps_lines_and_filters_in_the_pipeline() {
    let s = hot_journal_script(123);
    assert!(s.contains("--since @123") && s.contains("-n 5000") && s.contains("grep -F 'NVRM: Xid'") && s.contains("head -n 200"), "{s}");
}

#[test]
fn the_pid_is_read_from_real_ss_output_shapes() {
    let with_users = "LISTEN 0      128       127.0.0.1:8443 0.0.0.0:* users:((\"engine\",pid=517184,fd=6))\nLISTEN 0      128    192.0.2.10:8443 0.0.0.0:* users:((\"engine\",pid=517184,fd=8))\n";
    assert_eq!(pid_from_ss(with_users, 8443).as_deref(), Some("517184"));
    // the engine port is NOT this port: no line matches, no pid
    assert_eq!(pid_from_ss(with_users, 8090), None);
    // plain `ss -ltn` (no -p): a listener but no process info -> None
    assert_eq!(pid_from_ss("LISTEN 0      4096   0.0.0.0:8090 0.0.0.0:*\n", 8090), None);
    // the pid format lsof's -ti prints: one bare number per line
    assert_eq!("517184\n".trim().parse::<u32>().ok(), Some(517_184));
    assert_eq!(listener_pid(None, Some("517184\n"), 8090), Some(517_184));
    assert_eq!(listener_pid(Some(with_users), Some("1\n"), 8443), Some(517_184));
    assert_eq!(listener_pid(Some(with_users), Some("1\n"), 8090), Some(1));
    assert_eq!(listener_pid(None, Some("no number\n"), 8090), None);
    assert_eq!(listener_pid(None, None, 8090), None);
}

#[test]
fn engine_cmdline_refuses_a_zero_port() {
    // a URL without a port (port 0) must not scan anything
    assert_eq!(engine_cmdline(0, None, None), "");
    assert_eq!(engine_cmdline(0, Some(7), Some("a\0b")), "");
}

#[test]
fn a_launch_line_is_the_arguments_with_spaces() {
    assert_eq!(engine_cmdline(8090, Some(7), Some("python\0-m\0\0engine\0")), "python -m engine");
    assert_eq!(engine_cmdline(8090, None, Some("python")), "");
    assert_eq!(engine_cmdline(8090, Some(7), None), "");
}

#[test]
fn the_xid_scan_gate_is_nvidia_with_journalctl_and_nothing_else() {
    assert!(xid_scan_gate(GpuSource::Nvidia, false).nvidia);
    assert!(!xid_scan_gate(GpuSource::Amd, false).nvidia);
    assert!(!xid_scan_gate(GpuSource::Apple, false).nvidia);
    assert!(!xid_scan_gate(GpuSource::Absent, false).nvidia);
    for src in [GpuSource::Amd, GpuSource::Apple, GpuSource::Absent] {
        for journalctl in [false, true] {
            assert!(
                !XidScanGate { nvidia: xid_scan_gate(src, journalctl).nvidia, journalctl }.should_scan(),
                "{src:?} with journalctl={journalctl} must not scan"
            );
        }
    }
    // the truth table
    assert!(XidScanGate { nvidia: true, journalctl: true }.should_scan());
    assert!(!XidScanGate { nvidia: true, journalctl: false }.should_scan(), "NVIDIA without journalctl must not scan");
    assert!(!XidScanGate { nvidia: false, journalctl: true }.should_scan(), "journalctl without NVIDIA must not scan");
    assert!(!XidScanGate { nvidia: false, journalctl: false }.should_scan());
}

#[test]
fn the_back_fill_reads_to_its_end_and_not_further() {
    assert_eq!(
        backfill_script(10, None),
        "nice -n 19 journalctl _TRANSPORT=kernel --since @10 -o short-iso --no-pager -q | grep -F --line-buffered 'NVRM: Xid'; true"
    );
    assert_eq!(
        backfill_script(10, Some(20)),
        "nice -n 19 journalctl _TRANSPORT=kernel --since @10 --until @20 -o short-iso --no-pager -q | grep -F --line-buffered 'NVRM: Xid'; true"
    );
}

#[test]
fn only_the_pinned_engine_sees_its_key() {
    let mut auth = EngineAuth::new();
    assert_eq!(authed(&auth, "http://engine:30000/v1/models"), None);
    set_engine_auth(&mut auth, "http://engine:30000/", " secret ");
    assert_eq!(authed(&auth, "http://engine:30000/v1/models").as_deref(), Some("Bearer secret"));
    assert_eq!(authed(&auth, "http://engine:300001/v1/models"), None);
    assert_eq!(authed(&auth, "http://other:30000/v1/models"), None);
    // the first key that is set stays
    set_engine_auth(&mut auth, "http://other:1", "second");
    assert_eq!(authed(&auth, "http://other:1/x"), None);
    assert!(is_under("http://a", "http://a"));
    assert!(is_under("http://a/b", "http://a"));
    assert!(!is_under("http://ab", "http://a"));
}

#[test]
fn an_empty_key_is_no_key() {
    let mut auth = EngineAuth::new();
    set_engine_auth(&mut auth, "http://engine:30000", "  ");
    assert_eq!(authed(&auth, "http://engine:30000/x"), None);
}

#[test]
fn errors_are_cut_to_what_an_operator_needs() {
    assert_eq!(short_err("http://x/y: Connection Failed: Connect error: refused (os error 111)"), "refused (os error 111)");
    assert_eq!(short_err(&"x".repeat(200)).len(), 80);
    assert_eq!(http_get(Fetched::Body("b".into()), None), Ok("b".into()));
    assert_eq!(http_get(Fetched::Unread("cut".into()), None), Err("read: cut".into()));
    assert_eq!(http_get(Fetched::Status(503), None), Err("HTTP 503".into()));
    assert_eq!(http_get(Fetched::Broken("a: b: no route".into()), None), Err("no route".into()));
    assert_eq!(http_get(Fetched::Broken("a: UnknownIssuer".into()), Some("the certificate was refused".into())), Err("the certificate was refused".into()));
}

#[test]
fn a_machine_without_a_name_is_localhost() {
    assert_eq!(host_name(Some(" box\n")), "box");
    assert_eq!(host_name(Some("\n")), "localhost");
    assert_eq!(host_name(None), "localhost");
}

#[test]
fn the_first_vendor_that_is_there_gives_the_gpu_numbers() {
    let none = Programs { nvidia_smi: false, amd_smi: false, rocm_smi: false, ioreg: false, macos: false };
    assert_eq!(find_gpu_source(none), GpuSource::Absent);
    assert_eq!(find_gpu_source(Programs { nvidia_smi: true, rocm_smi: true, ..none }), GpuSource::Nvidia);
    assert_eq!(find_gpu_source(Programs { rocm_smi: true, ..none }), GpuSource::Amd);
    assert_eq!(find_gpu_source(Programs { amd_smi: true, ..none }), GpuSource::Amd);
    assert_eq!(find_gpu_source(Programs { ioreg: true, macos: true, ..none }), GpuSource::Apple);
}

#[test]
fn an_empty_gpu_reading_is_a_failure() {
    assert_eq!(apple_reading::<u8>(Ok(vec![])), Err("ioreg: no IOAccelerator statistics".into()));
    assert_eq!(apple_reading(Ok(vec![1])), Ok(vec![1]));
    assert_eq!(amd_reading(Some(vec![1]), Err("gone".into())), Ok(vec![1]));
    assert_eq!(amd_reading(Some(vec![]), Ok(vec![2])), Ok(vec![2]));
    assert_eq!(amd_reading::<u8>(None, Ok(vec![])), Err("amd-smi / rocm-smi: no GPU in the output".into()));
    assert_eq!(amd_reading::<u8>(None, Err("gone".into())), Err("gone".into()));
    assert_eq!(smi_said(" out \n", " err "), "out err");
    assert_eq!(smi_reading::<u8>(Ok((vec![], "No devices were found".into()))), Err("nvidia-smi: No devices were found".into()));
    assert_eq!(smi_reading(Ok((vec![3], "x".into()))), Ok(vec![3]));
    assert_eq!(smi_reading::<u8>(Err("timed out".into())), Err("timed out".into()));
}

#[test]
fn a_driver_that_refuses_the_long_field_list_is_not_asked_again() {
    let mut p = Poller::new(100);
    assert!(p.smi_ext_ok);
    assert!(!p.smi_falls_back(2, "Field x is not a valid field to query"));
    assert!(p.smi_ext_ok);
    assert!(p.smi_falls_back(0, "Field x is not a valid field to query"));
    assert!(!p.smi_ext_ok);
}

#[test]
fn a_poll_asks_each_source_what_it_needs() {
    let mut p = Poller::new(1_000);
    let a = p.ask(1_005, GpuSource::Nvidia, true, Some(EngineKind::Vllm), false, "gate");
    assert_eq!(a.source, GpuSource::Nvidia);
    assert!(a.refresh_pci && a.load_nvml && a.want_health);
    assert_eq!(a.journal.as_deref(), Some(hot_journal_script(995).as_str()));
    assert_eq!(a.journal_gap, None);
    assert_eq!(a.logs_since.as_deref(), Some("10m"));
    assert_eq!(p.kind, Some(EngineKind::Vllm));
    // what the machine has is found out once
    let b = p.ask(1_010, GpuSource::Amd, false, None, true, "");
    assert_eq!(b.source, GpuSource::Nvidia);
    assert!(!b.refresh_pci && !b.load_nvml && !b.want_health);
    assert!(b.journal.is_some());
    assert_eq!(b.logs_since, None);
    let mut amd = Poller::new(1_000);
    assert_eq!(amd.ask(1_005, GpuSource::Amd, true, None, false, "").journal, None);
}

#[test]
fn a_kernel_line_is_reported_once() {
    let mut p = Poller::new(1_000);
    let line = |s: &str, t: Option<i64>| (s.to_string(), t);
    let journal = Some(vec![line("xid 79", Some(990)), line("other", None), line("xid 79", Some(990)), line("xid 13", Some(995))]);
    assert_eq!(p.take_journal(1_005, &journal), vec![0, 3]);
    assert_eq!(p.xid_since, 1_005);
    // the next window overlaps: nothing new
    assert_eq!(p.take_journal(1_010, &journal), Vec::<usize>::new());
    // unreadable: nothing is forgotten that is young, and the window grows
    assert_eq!(p.take_journal(1_015, &None), Vec::<usize>::new());
    assert_eq!(p.xid_since, 1_010);
    // much later the line is old enough to be forgotten
    assert_eq!(p.take_journal(9_000, &None), Vec::<usize>::new());
    assert_eq!(p.xid_seen.len(), 0);
}

#[test]
fn the_engines_container_is_found_or_remembered() {
    let known = Some("old".to_string());
    assert_eq!(serve_container_name("fixed", Some("x\n"), &known).as_deref(), Some("fixed"));
    assert_eq!(serve_container_name("auto", Some("new\nother\n"), &known).as_deref(), Some("new"));
    assert_eq!(serve_container_name("auto", Some(""), &known).as_deref(), Some("old"));
    assert_eq!(serve_container_name("auto", None, &None), None);
    assert_eq!(inspected(&known, "gate"), vec!["old".to_string(), "gate".to_string()]);
    assert_eq!(inspected(&None, ""), Vec::<String>::new());
}

#[test]
fn a_gateway_that_cannot_be_read_says_why() {
    assert_eq!(gate_reply::<u8>(false, Err("x".into())), Err(String::new()));
    assert_eq!(gate_reply(true, Ok(Some(1))), Ok(1));
    assert_eq!(gate_reply::<u8>(true, Ok(None)), Err("bad JSON from /gate/health".into()));
    assert_eq!(gate_reply::<u8>(true, Err("HTTP 500".into())), Err("HTTP 500".into()));
}
