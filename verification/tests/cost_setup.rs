use lss_collector::cost_setup_run::{
    describe_existing, parse_args, run, zip_problem, Event, Found, IpLocation, Mode, Opts, Price,
    RateOrigin, Request, Tape, Texts, TouPlan, ZipLookup,
};
use std::collections::VecDeque;

const PATH: &str = "/cfg/rates.toml";
const TODAY: &str = "2026-09-24";

fn shown(v: f64) -> String {
    let s = format!("{v:.6}");
    s.trim_end_matches('0').trim_end_matches('.').to_string()
}

fn price(v: f64) -> Price<f64> {
    Price { value: v, shown: shown(v) }
}

fn average(code: &str) -> (String, f64) {
    let (place, usd) = match code {
        "MA" => ("Massachusetts", 0.2961),
        "CA" => ("California", 0.3474),
        "NY" => ("New York", 0.2655),
        "IL" => ("Illinois", 0.1812),
        "TX" => ("Texas", 0.1543),
        _ => ("Washington", 0.1399),
    };
    (place.to_string(), usd)
}

fn lookup(zip: &str) -> ZipLookup<f64> {
    let code = match zip.trim() {
        "02134" => "MA",
        "94103" => "CA",
        "10001" => "NY",
        "60601" => "IL",
        "98101" => "WA",
        "00901" => return ZipLookup::NotCovered { place: "Puerto Rico".into() },
        "00012" => return ZipLookup::UnknownPrefix { prefix: "000".into() },
        other => return ZipLookup::Invalid { reason: format!("'{other}' is not a US ZIP code") },
    };
    let (place, usd) = average(code);
    ZipLookup::State { code: code.into(), place, cents: format!("{:.2}", usd * 100.0), price: price(usd) }
}

fn locate(body: &str) -> Result<IpLocation<f64>, String> {
    let state = |code: &str, city: &str| {
        let (place, usd) = average(code);
        Ok(IpLocation::UsState { code: code.into(), place, cents: format!("{:.2}", usd * 100.0), price: price(usd), city: city.into() })
    };
    match body {
        "Austin, Texas" => state("TX", "Austin"),
        "California" => state("CA", ""),
        "New York" => state("NY", ""),
        "Guam" => Ok(IpLocation::UsNotCovered { region: "Guam".into() }),
        "DE" | "CA/Ontario" => Ok(IpLocation::NotUs { country: body[..2].into() }),
        e => Err(e.into()),
    }
}

fn cents(text: &str) -> Option<f64> {
    text.trim().strip_suffix('c').and_then(|n| n.parse().ok())
}

fn parse(text: &str) -> Result<f64, String> {
    let t = text.trim();
    let usd = match cents(t) {
        Some(c) => c / 100.0,
        None => match t.parse::<f64>() {
            Ok(v) if v >= 1.0 => v / 100.0,
            Ok(v) => v,
            Err(_) => return Err(format!("'{t}' is not a rate")),
        },
    };
    if usd > 0.0 { Ok(usd) } else { Err(format!("'{t}' is not a rate above 0")) }
}

fn doubt(text: &str) -> Option<String> {
    let t = text.trim();
    let n: f64 = t.parse().ok()?;
    (1.0..5.0).contains(&n).then_some(format!("'{t}' reads as {t} cents = ${}/kWh, below almost any home rate", shown(n / 100.0)))
}

fn check(p: &TouPlan<f64>) -> Result<Vec<String>, String> {
    if p.peak_end <= p.peak_start {
        return Err("a peak window across midnight is not supported".into());
    }
    let mut doubts = vec![];
    if p.off_peak.value > p.on_peak.value {
        doubts.push(format!("off-peak (${:.2}/kWh) is dearer than on-peak (${:.2}/kWh)", p.off_peak.value, p.on_peak.value));
    }
    if p.fixed_usd_per_day > 10.0 {
        doubts.push(format!("a fixed charge of ${} a day", p.fixed_usd_per_day));
    }
    Ok(doubts)
}

/// A person at the terminal, with the tables, the network and the disk around them.
struct Script {
    answers: VecDeque<String>,
    said: String,
    prompts: String,
    ip: Result<String, String>,
    ip_calls: u32,
    file: Option<String>,
    plan: Option<(f64, f64, f64, Option<f64>, f64)>,
    flat: Option<(f64, String)>,
}

impl Script {
    fn new(answers: &[&str]) -> Script {
        Script {
            answers: answers.iter().map(|s| s.to_string()).collect(),
            said: String::new(),
            prompts: String::new(),
            ip: Err("offline".into()),
            ip_calls: 0,
            file: None,
            plan: None,
            flat: None,
        }
    }

    fn answer(&mut self, q: Request<f64>) -> Event<f64> {
        match q {
            Request::Ask(p) => {
                self.prompts.push_str(&p);
                Event::Answer(self.answers.pop_front())
            }
            Request::LookupZip(z) => Event::Zip(lookup(&z)),
            Request::ParseRate(t) => Event::Rate(parse(&t).map(price), doubt(&t)),
            Request::ParseCharge(t) => Event::Charge(t.parse::<f64>().ok().filter(|v| (0.0..100.0).contains(v))),
            Request::Locate => {
                self.ip_calls += 1;
                Event::Location(self.ip.clone().and_then(|b| locate(&b)))
            }
            Request::CheckTou(p) => Event::Checked(check(&p)),
            Request::Render(p, origin) => {
                let (label, how) = match origin {
                    RateOrigin::Manual => (format!("entered by hand ({TODAY})"), "a person".to_string()),
                    RateOrigin::StateAverage { code, how } => (format!("{code} avg (EIA 2026-06)"), how),
                };
                self.flat = Some((p.value, label.clone()));
                Event::Rendered { text: format!("kind = \"flat\"\nusd_per_kwh = {}\n# {label}, {how}\n", p.shown), label }
            }
            Request::RenderTou(p) => {
                self.plan = Some((p.on_peak.value, p.off_peak.value, p.weekend_peak.value, p.seasons.as_ref().map(|s| s.winter_peak.value), p.fixed_usd_per_day));
                Event::Rendered { text: "kind = \"tou\"\n".into(), label: format!("time-of-use, entered by hand ({TODAY})") }
            }
            Request::Existing => Event::Existing(self.file.as_ref().map(|_| "\"old\"".to_string())),
            Request::Write(t) => {
                self.file = Some(t);
                Event::Written(Ok(()))
            }
        }
    }
}

fn drive(o: &Opts, io: &mut Script) -> i32 {
    let texts = Texts { eia_month: "2026-06".into(), eia_released: "2026-08-25".into(), ip_name: "ipinfo.io".into(), ip_url: "https://ipinfo.io/json".into() };
    let mut events: Vec<Event<f64>> = vec![];
    loop {
        let mut tape = Tape::new(events);
        match run(o, PATH, &texts, 0.0, &mut tape) {
            Ok(code) => {
                io.said = tape.said.concat();
                return code;
            }
            Err(q) => {
                events = tape.events;
                events.push(io.answer(q));
            }
        }
    }
}

fn opts(mode: Mode) -> Opts {
    Opts { mode, out: PATH.into(), force: false, dry_run: false }
}

fn source(io: &Script) -> Option<&str> {
    io.flat.as_ref().map(|f| f.1.as_str())
}

#[test]
fn args_parse_and_conflicts_are_refused() {
    let a = |v: &[&str]| parse_args(&v.iter().map(|s| s.to_string()).collect::<Vec<_>>());
    assert_eq!(a(&["--zip", "02134"]).unwrap().mode, Mode::Zip("02134".into()));
    assert_eq!(a(&[]).unwrap().mode, Mode::Ask);
    assert!(a(&["--zip", "1", "--rate", "0.2"]).is_err());
    assert!(a(&["--zip"]).is_err());
    assert!(a(&["--bogus"]).is_err());
    let o = a(&["--rate", "0.2", "--out", "/x", "--force", "--dry-run"]).unwrap();
    assert!(o.force && o.dry_run && o.out == "/x");
    assert_eq!(a(&["--from-ip"]).unwrap().mode, Mode::FromIp);
    assert_eq!(a(&["--skip"]).unwrap().mode, Mode::Skip);
    assert_eq!(a(&["--bogus"]), Err("unknown argument --bogus".into()));
    assert_eq!(a(&["--rate"]), Err("--rate needs a value".into()));
    assert_eq!(a(&["--skip", "--from-ip"]), Err("choose ONE of --zip, --from-ip, --rate, --skip".into()));
}

#[test]
fn zip_flag_writes_the_state_average_with_its_source() {
    let mut io = Script::new(&[]);
    assert_eq!(drive(&opts(Mode::Zip("02134".into())), &mut io), 0, "{}", io.said);
    assert_eq!(io.flat, Some((0.2961, "MA avg (EIA 2026-06)".into())));
    assert_eq!(io.ip_calls, 0, "a ZIP never touches the network");
    assert!(io.said.contains("rate: MA avg (EIA 2026-06)"), "{}", io.said);
    assert!(io.file.is_some());
}

#[test]
fn zip_flag_failures_exit_1_and_write_nothing() {
    for z in ["00901", "abc", "00012", "9410"] {
        let mut io = Script::new(&[]);
        assert_eq!(drive(&opts(Mode::Zip(z.into())), &mut io), 1, "{z}: {}", io.said);
        assert!(io.file.is_none());
    }
}

#[test]
fn rate_flag_and_skip_flag() {
    let mut io = Script::new(&[]);
    assert_eq!(drive(&opts(Mode::Rate("31c".into())), &mut io), 0);
    assert_eq!(io.flat, Some((0.31, "entered by hand (2026-09-24)".into())));
    let mut io = Script::new(&[]);
    assert_eq!(drive(&opts(Mode::Rate("$40".into())), &mut io), 1);
    let mut io = Script::new(&[]);
    assert_eq!(drive(&opts(Mode::Skip), &mut io), 0);
    assert!(io.file.is_none());
}

#[test]
fn existing_file_is_kept_unless_forced_or_confirmed() {
    let mut io = Script::new(&[]);
    io.file = Some("mine".into());
    assert_eq!(drive(&opts(Mode::Rate("0.2".into())), &mut io), 3);
    assert_eq!(io.file.as_deref(), Some("mine"));
    let mut o = opts(Mode::Rate("0.2".into()));
    o.force = true;
    assert_eq!(drive(&o, &mut io), 0);
    assert_ne!(io.file.as_deref(), Some("mine"));
    // interactive: asked, default is NO
    let mut io = Script::new(&["3", "0.2", ""]);
    io.file = Some("mine".into());
    assert_eq!(drive(&opts(Mode::Ask), &mut io), 3);
    assert_eq!(io.file.as_deref(), Some("mine"));
    let mut io = Script::new(&["3", "0.2", "y"]);
    io.file = Some("mine".into());
    assert_eq!(drive(&opts(Mode::Ask), &mut io), 0);
    assert_ne!(io.file.as_deref(), Some("mine"));
}

#[test]
fn dry_run_prints_and_writes_nothing() {
    let mut o = opts(Mode::Zip("94103".into()));
    o.dry_run = true;
    let mut io = Script::new(&[]);
    assert_eq!(drive(&o, &mut io), 0);
    assert!(io.file.is_none());
    assert!(io.said.contains("kind = \"flat\"") && io.said.contains("usd_per_kwh = 0.3474"), "{}", io.said);
}

#[test]
fn interactive_zip_path_retries_bad_input_then_accepts() {
    let mut io = Script::new(&["", "abc", "00012", "94103", ""]);
    assert_eq!(drive(&opts(Mode::Ask), &mut io), 0, "{}", io.said);
    assert!(io.said.contains("not a US ZIP code") && io.said.contains("no US ZIP code starts with 000"), "{}", io.said);
    assert_eq!(source(&io), Some("CA avg (EIA 2026-06)"));
    assert_eq!(io.ip_calls, 0);
}

#[test]
fn interactive_territory_zip_goes_to_manual_rate() {
    let mut io = Script::new(&["1", "00901", "0.27"]);
    assert_eq!(drive(&opts(Mode::Ask), &mut io), 0, "{}", io.said);
    assert!(io.said.contains("Puerto Rico is not in EIA's state table"));
    assert_eq!(source(&io), Some("entered by hand (2026-09-24)"));
}

#[test]
fn declining_the_average_asks_for_a_rate() {
    let mut io = Script::new(&["1", "10001", "n", "0.25"]);
    assert_eq!(drive(&opts(Mode::Ask), &mut io), 0);
    assert_eq!(source(&io), Some("entered by hand (2026-09-24)"));
}

#[test]
fn ip_lookup_needs_consent_and_declining_sends_nothing() {
    let mut io = Script::new(&["2", "", "60601", ""]); // Enter at consent = NO (default)
    io.ip = Ok("California".into());
    assert_eq!(drive(&opts(Mode::Ask), &mut io), 0, "{}", io.said);
    assert_eq!(io.ip_calls, 0, "no consent = no request");
    assert!(io.said.contains("ipinfo.io sees your public IP address"), "the prompt names the service and what it sees");
    assert_eq!(source(&io), Some("IL avg (EIA 2026-06)"));
}

#[test]
fn ip_lookup_with_consent_makes_one_call_and_uses_the_state() {
    let mut io = Script::new(&["2", "y", ""]);
    io.ip = Ok("Austin, Texas".into());
    assert_eq!(drive(&opts(Mode::Ask), &mut io), 0, "{}", io.said);
    assert_eq!(io.ip_calls, 1);
    assert!(io.prompts.contains("Austin, Texas"));
    assert_eq!(source(&io), Some("TX avg (EIA 2026-06)"));
    assert!(io.file.as_ref().unwrap().contains("IP lookup via ipinfo.io"));
}

#[test]
fn ip_lookup_network_failure_falls_back_to_the_zip_question() {
    let mut io = Script::new(&["2", "y", "98101", ""]);
    io.ip = Err("Could not resolve host: ipinfo.io".into());
    assert_eq!(drive(&opts(Mode::Ask), &mut io), 0, "{}", io.said);
    assert!(io.said.contains("lookup failed") && io.said.contains("Enter your ZIP code instead"), "{}", io.said);
    assert_eq!(source(&io), Some("WA avg (EIA 2026-06)"));
}

#[test]
fn ip_lookup_outside_the_us_asks_for_a_rate() {
    let mut io = Script::new(&["2", "y", "0.40"]);
    io.ip = Ok("DE".into());
    assert_eq!(drive(&opts(Mode::Ask), &mut io), 0, "{}", io.said);
    assert!(io.said.contains("outside the US (DE)"));
    assert_eq!(source(&io), Some("entered by hand (2026-09-24)"));
}

#[test]
fn from_ip_flag_is_consent_and_its_failure_is_exit_1() {
    let mut io = Script::new(&[]);
    io.ip = Ok("New York".into());
    assert_eq!(drive(&opts(Mode::FromIp), &mut io), 0);
    assert_eq!(io.ip_calls, 1);
    assert_eq!(source(&io), Some("NY avg (EIA 2026-06)"));
    for answer in [Err("offline".to_string()), Ok("CA/Ontario".to_string()), Ok("Guam".to_string())] {
        let mut io = Script::new(&[]);
        io.ip = answer;
        assert_eq!(drive(&opts(Mode::FromIp), &mut io), 1);
        assert!(io.file.is_none());
    }
}

#[test]
fn skip_and_end_of_input_write_nothing() {
    let mut io = Script::new(&["4"]);
    assert_eq!(drive(&opts(Mode::Ask), &mut io), 0);
    assert!(io.file.is_none() && io.said.contains("cost tracking stays off"));
    let mut io = Script::new(&[]); // Ctrl-D at the menu
    assert_eq!(drive(&opts(Mode::Ask), &mut io), 0);
    assert!(io.file.is_none());
    let mut io = Script::new(&["9", "9", "9", "9", "9"]);
    assert_eq!(drive(&opts(Mode::Ask), &mut io), 2);
    assert!(io.said.contains("no valid choice after 5 tries"), "{}", io.said);
}

#[test]
fn an_existing_file_it_cannot_read_is_still_kept_without_force() {
    assert_eq!(describe_existing(&Found::Read(None)).as_deref(), Some("not a readable rate table"));
    assert_eq!(describe_existing(&Found::Directory).as_deref(), Some("a directory, not a rate table"));
    assert_eq!(describe_existing(&Found::Denied).as_deref(), Some("a file you cannot read (permission denied)"));
    assert_eq!(describe_existing(&Found::Unreadable("loop".into())).as_deref(), Some("a file that cannot be read: loop"));
    assert_eq!(describe_existing(&Found::Read(Some("mine".into()))).as_deref(), Some("\"mine\""));
    assert_eq!(describe_existing(&Found::Nothing), None);
    let mut io = Script::new(&[]);
    io.file = Some("\u{fffd}".into());
    assert_eq!(drive(&opts(Mode::Rate("0.2".into())), &mut io), 3, "whatever is there is kept");
    let mut io = Script::new(&[]);
    io.file = Some("x".into());
    assert_eq!(drive(&opts(Mode::Skip), &mut io), 0);
    assert!(io.said.contains("is left as it is") && !io.said.contains("cost tracking stays off"), "{}", io.said);
}

#[test]
fn menu_choice_5_takes_a_typed_time_of_use_plan_and_writes_one_the_collector_prices() {
    let mut io = Script::new(&["5", "0.52", "", "", "31c", "", "y", "", "", "0.45", "0.25"]);
    assert_eq!(drive(&opts(Mode::Ask), &mut io), 0, "{}", io.said);
    assert!(io.said.contains("5) time-of-use plan"), "{}", io.said);
    assert_eq!(io.plan, Some((0.52, 0.31, 0.52, Some(0.45), 0.25)));
    assert!(io.said.contains("rate: time-of-use, entered by hand (2026-09-24) = on-peak $0.52 /kWh 16-21h weekdays, off-peak $0.31 /kWh"), "{}", io.said);
}

#[test]
fn a_tou_plan_with_bad_numbers_is_asked_again_and_an_ended_input_writes_nothing() {
    let mut io = Script::new(&["5", "0", "0.5", "25", "17", "16", "0.2", "", "", "", "0.5", "17", "22", "0.2", "", "", ""]);
    assert_eq!(drive(&opts(Mode::Ask), &mut io), 0, "{}", io.said);
    assert!(io.said.contains("is not a whole number from 0 to 23"), "{}", io.said);
    assert!(io.said.contains("across midnight is not supported"), "{}", io.said);
    assert_eq!(io.plan, Some((0.5, 0.2, 0.5, None, 0.0)));
    // the input ends half way: nothing is written, cost stays off
    let mut io = Script::new(&["5", "0.52", "16"]);
    assert_eq!(drive(&opts(Mode::Ask), &mut io), 0);
    assert!(io.file.is_none(), "{}", io.said);
}

#[test]
fn a_tou_plan_that_looks_like_a_slip_is_asked_about_and_typed_again_on_no() {
    let mut io = Script::new(&["5", "0.52", "", "", "0.60", "", "", "0.25", "n", "0.52", "", "", "0.31", "", "", "21", "y"]);
    assert_eq!(drive(&opts(Mode::Ask), &mut io), 0, "{}", io.said);
    assert!(io.said.contains("Are you sure? off-peak ($0.60/kWh) is dearer than on-peak ($0.52/kWh)"), "{}", io.said);
    assert!(io.said.contains("Are you sure? a fixed charge of $21 a day"), "{}", io.said);
    let plan = io.plan.unwrap();
    assert_eq!((plan.1, plan.4), (0.31, 21.0), "the second, corrected plan; 'y' keeps a number that is unusual but deliberate");
}

#[test]
fn the_winter_question_says_it_covers_every_day_of_winter() {
    let mut io = Script::new(&["5", "0.52", "", "", "0.31", "0.40", "y", "", "", "0.45", ""]);
    assert_eq!(drive(&opts(Mode::Ask), &mut io), 0, "{}", io.said);
    assert!(io.prompts.contains("Winter on-peak price, $ per kWh (the same hours, EVERY day in winter - weekends too)"), "{}", io.prompts);
    assert_eq!(io.plan, Some((0.52, 0.31, 0.40, Some(0.45), 0.0)));
}

#[test]
fn a_typed_tou_plan_never_replaces_an_existing_file_unasked() {
    let mut io = Script::new(&["5", "0.52", "", "", "0.31", "", "", "", "n"]);
    io.file = Some("old".into());
    assert_eq!(drive(&opts(Mode::Ask), &mut io), 3, "{}", io.said);
    assert_eq!(io.file.as_deref(), Some("old"));
}

#[test]
fn a_flat_rate_typed_as_a_bare_small_number_is_said_back_as_cents_and_asked_about() {
    let mut io = Script::new(&["3", "2.5", "n", "0.25"]);
    assert_eq!(drive(&opts(Mode::Ask), &mut io), 0, "{}", io.said);
    assert!(io.said.contains("Are you sure? '2.5' reads as 2.5 cents = $0.025/kWh, below almost any home rate"), "{}", io.said);
    assert_eq!(io.flat.as_ref().map(|f| f.0), Some(0.25), "the retyped rate was written");
    // y keeps it: 2.5 cents is odd, not impossible
    let mut io = Script::new(&["3", "2.5", "y"]);
    assert_eq!(drive(&opts(Mode::Ask), &mut io), 0, "{}", io.said);
    assert_eq!(io.flat.as_ref().map(|f| f.0), Some(0.025));
    // said explicitly (2.5c), or an ordinary bare number of cents (31): no question
    for (typed, want) in [("2.5c", 0.025), ("31", 0.31), ("0.31", 0.31)] {
        let mut io = Script::new(&["3", typed]);
        assert_eq!(drive(&opts(Mode::Ask), &mut io), 0, "{typed}: {}", io.said);
        assert!(!io.said.contains("Are you sure?"), "{typed}: {}", io.said);
        assert_eq!(io.flat.as_ref().map(|f| f.0), Some(want), "{typed}");
    }
    let mut io = Script::new(&["3", "x", "y", "z"]);
    assert_eq!(drive(&opts(Mode::Ask), &mut io), 1);
    assert!(io.said.contains("no usable rate after 3 tries"), "{}", io.said);
}

#[test]
fn a_tou_price_typed_as_a_bare_small_number_is_said_back_as_cents_and_asked_about() {
    let mut io = Script::new(&["5", "2.5", "n", "0.52", "", "", "0.31", "", "", ""]);
    assert_eq!(drive(&opts(Mode::Ask), &mut io), 0, "{}", io.said);
    assert!(io.said.contains("Are you sure? '2.5' reads as 2.5 cents = $0.025/kWh"), "{}", io.said);
    let plan = io.plan.unwrap();
    assert_eq!((plan.0, plan.1), (0.52, 0.31));
}

#[test]
fn the_rate_flag_refuses_a_bare_small_number_it_would_read_as_cents() {
    let mut io = Script::new(&[]);
    assert_eq!(drive(&opts(Mode::Rate("2.5".into())), &mut io), 1, "{}", io.said);
    assert!(io.file.is_none());
    assert!(io.said.contains("--rate 2.5: '2.5' reads as 2.5 cents = $0.025/kWh") && io.said.contains("pass --rate 2.5c"), "{}", io.said);
    let mut io = Script::new(&[]);
    assert_eq!(drive(&opts(Mode::Rate("2.5c".into())), &mut io), 0, "{}", io.said);
    assert_eq!(io.flat.as_ref().map(|f| f.0), Some(0.025));
}

#[test]
fn a_zip_code_without_a_rate_says_why() {
    assert_eq!(zip_problem(&lookup("00901")), "Puerto Rico is not in EIA's state table, so there is no average to use");
    assert_eq!(zip_problem(&lookup("00012")), "no US ZIP code starts with 000");
    assert_eq!(zip_problem(&lookup("x")), "'x' is not a US ZIP code");
    assert_eq!(zip_problem(&lookup("94103")), "");
}
