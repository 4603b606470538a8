//! The program's arguments, its configuration file, and the client side of a test alert.

use crate::http::{lemma_queued_body, queued_body};
use crate::json::{
    int_field, member_elements, member_i64, member_int, member_of, member_rows, member_str,
    member_string, text_field, writes, Field,
};
use crate::text::{dec, dec_u64, opt_view, same, trim, trimmed, views};
use vstd::prelude::*;
use vstd::string::*;

verus! {

/// What the arguments set.
pub struct Args {
    /// the configuration file, where one was named
    pub config: Option<String>,
    pub check_only: bool,
    pub detect_only: bool,
    pub test_alert: Option<String>,
}

/// What the arguments set, as values.
pub struct ArgsView {
    pub config: Option<Seq<char>>,
    pub check_only: bool,
    pub detect_only: bool,
    pub test_alert: Option<Seq<char>>,
}

impl View for Args {
    type V = ArgsView;

    open spec fn view(&self) -> ArgsView {
        ArgsView {
            config: opt_view(self.config),
            check_only: self.check_only,
            detect_only: self.detect_only,
            test_alert: opt_view(self.test_alert),
        }
    }
}

/// What the program is asked to do.
pub enum Command {
    /// the cost wizard, with the arguments behind the first
    CostSetup,
    /// the set-up wizard, with the arguments behind the first
    Setup,
    Version,
    Help,
    /// the arguments are wrong: the sentence
    Die(String),
    Start(Args),
}

/// What the program is asked to do, as values.
pub enum CommandView {
    CostSetup,
    Setup,
    Version,
    Help,
    Die(Seq<char>),
    Start(ArgsView),
}

impl View for Command {
    type V = CommandView;

    open spec fn view(&self) -> CommandView {
        match *self {
            Command::CostSetup => CommandView::CostSetup,
            Command::Setup => CommandView::Setup,
            Command::Version => CommandView::Version,
            Command::Help => CommandView::Help,
            Command::Die(s) => CommandView::Die(s@),
            Command::Start(a) => CommandView::Start(a@),
        }
    }
}

/// What the arguments from number `at` on ask for, where those before have set `a`.
pub open spec fn asked(argv: Seq<Seq<char>>, at: int, a: ArgsView, usage: Seq<char>) -> CommandView
    decreases argv.len() - at,
{
    if at < 0 || at >= argv.len() {
        CommandView::Start(a)
    } else if argv[at] == "--config"@ {
        if at + 1 >= argv.len() {
            CommandView::Die("--config needs a path"@)
        } else {
            asked(argv, at + 2, (ArgsView { config: Some(argv[at + 1]), ..a }), usage)
        }
    } else if argv[at] == "--check-config"@ {
        asked(argv, at + 1, (ArgsView { check_only: true, ..a }), usage)
    } else if argv[at] == "--detect"@ {
        asked(argv, at + 1, (ArgsView { detect_only: true, ..a }), usage)
    } else if argv[at] == "--test-alert"@ {
        if at + 1 >= argv.len() {
            CommandView::Die("--test-alert needs a message"@)
        } else {
            asked(argv, at + 2, (ArgsView { test_alert: Some(argv[at + 1]), ..a }), usage)
        }
    } else if argv[at] == "--version"@ || argv[at] == "-V"@ {
        CommandView::Version
    } else if argv[at] == "--help"@ || argv[at] == "-h"@ {
        CommandView::Help
    } else {
        CommandView::Die("unknown argument "@ + argv[at] + "\n"@ + usage)
    }
}

/// What the arguments ask for.
pub open spec fn command_of(argv: Seq<Seq<char>>, usage: Seq<char>) -> CommandView {
    if argv.len() > 0 && argv[0] == "cost-setup"@ {
        CommandView::CostSetup
    } else if argv.len() > 0 && argv[0] == "setup"@ {
        CommandView::Setup
    } else {
        asked(
            argv,
            0,
            (ArgsView { config: None, check_only: false, detect_only: false, test_alert: None }),
            usage,
        )
    }
}

/// What the arguments ask for: the first that is wrong, or asks for the version or the usage, decides.
pub fn command(argv: &Vec<String>, usage: &str) -> (r: Command)
    ensures
        r@ == command_of(views(argv@), usage@),
{
    if argv.len() > 0 {
        if same(argv[0].as_str(), "cost-setup") {
            return Command::CostSetup;
        }
        if same(argv[0].as_str(), "setup") {
            return Command::Setup;
        }
    }
    let mut config: Option<String> = None;
    let mut check_only = false;
    let mut detect_only = false;
    let mut test_alert: Option<String> = None;
    let mut i: usize = 0;
    let ghost all = views(argv@);
    while i < argv.len()
        invariant
            i <= argv@.len(),
            all == views(argv@),
            command_of(all, usage@) == asked(
                all,
                i as int,
                (ArgsView {
                    config: opt_view(config),
                    check_only,
                    detect_only,
                    test_alert: opt_view(test_alert),
                }),
                usage@,
            ),
        decreases argv@.len() - i,
    {
        let a = argv[i].as_str();
        if same(a, "--config") {
            if i + 1 >= argv.len() {
                return Command::Die("--config needs a path".to_owned());
            }
            config = Some(argv[i + 1].clone());
            i += 2;
        } else if same(a, "--check-config") {
            check_only = true;
            i += 1;
        } else if same(a, "--detect") {
            detect_only = true;
            i += 1;
        } else if same(a, "--test-alert") {
            if i + 1 >= argv.len() {
                return Command::Die("--test-alert needs a message".to_owned());
            }
            test_alert = Some(argv[i + 1].clone());
            i += 2;
        } else if same(a, "--version") || same(a, "-V") {
            return Command::Version;
        } else if same(a, "--help") || same(a, "-h") {
            return Command::Help;
        } else {
            let mut s = "unknown argument ".to_owned();
            s.append(a);
            s.append("\n");
            s.append(usage);
            return Command::Die(s);
        }
    }
    Command::Start(Args { config, check_only, detect_only, test_alert })
}

/// What a start does, once its configuration is read.
#[derive(Clone, Copy, PartialEq, Eq, Structural, Debug)]
pub enum Task {
    /// the configuration is shown
    ShowConfig,
    /// the engines of this machine are shown
    Detect,
    /// the running collector is asked for a test alert
    TestAlert,
    /// the collector runs
    Collect,
}

impl Args {
    /// The file that is read: the one that was named, else the one under the home directory.
    pub fn config_path(&self, home: &str) -> (r: String)
        ensures
            r@ == (match self.config {
                Some(p) => p@,
                None => home@ + "/.config/lss/collector.toml"@,
            }),
    {
        match &self.config {
            Some(p) => p.clone(),
            None => {
                let mut s = home.to_owned();
                s.append("/.config/lss/collector.toml");
                s
            },
        }
    }

    /// A configuration that cannot be read: the built-in one does where none was named, else the
    /// sentence to end with.
    pub fn config_missing(&self, path: &str, why: &str) -> (r: Option<String>)
        ensures
            opt_view(r) == (match self.config {
                Some(_) => Some(path@ + ": "@ + why@),
                None => None,
            }),
    {
        match &self.config {
            None => None,
            Some(_) => {
                let mut s = path.to_owned();
                s.append(": ");
                s.append(why);
                Some(s)
            },
        }
    }

    /// What the start does.
    pub fn task(&self) -> (r: Task)
        ensures
            r == (if self.check_only {
                Task::ShowConfig
            } else if self.detect_only {
                Task::Detect
            } else if self.test_alert is Some {
                Task::TestAlert
            } else {
                Task::Collect
            }),
    {
        if self.check_only {
            Task::ShowConfig
        } else if self.detect_only {
            Task::Detect
        } else if self.test_alert.is_some() {
            Task::TestAlert
        } else {
            Task::Collect
        }
    }
}

// ---------------------------------------------------------------- the test alert

/// The listener that a test alert is sent to: the first that only this machine reaches.
pub fn loopback_listener(loopback: &Vec<bool>) -> (r: Option<usize>)
    ensures
        match r {
            Some(i) => i < loopback@.len() && loopback@[i as int] && forall|j: int|
                0 <= j < i ==> !loopback@[j],
            None => forall|j: int| 0 <= j < loopback@.len() ==> !loopback@[j],
        },
{
    let mut i: usize = 0;
    while i < loopback.len()
        invariant
            i <= loopback@.len(),
            forall|j: int| 0 <= j < i ==> !loopback@[j],
        decreases loopback@.len() - i,
    {
        if loopback[i] {
            return Some(i);
        }
        i += 1;
    }
    None
}

/// What became of the request for a test alert.
pub enum Sent {
    /// the body of the answer
    Accepted(String),
    Refused(u16, String),
    /// nothing answered: why
    Unreachable(String),
}

/// What follows a request for a test alert.
pub enum AfterSend {
    /// this message is waited for
    Wait(String),
    /// the program ends: its code, and the sentence
    End(i32, String),
}

/// What follows a request for a test alert that went to `addr`. The message that is waited for is the
/// one that the collector says it has queued.
pub fn after_send(addr: &str, sent: &Sent) -> (r: AfterSend)
    ensures
        match *sent {
            Sent::Accepted(body) => {
                &&& r is Wait
                &&& r->Wait_0@ == (match member_string(body@, "message"@) {
                    Some(m) => m,
                    None => Seq::empty(),
                })
                &&& forall|message: Seq<char>, rule: Seq<char>|
                    body@ == #[trigger] queued_body(message, rule) ==> r->Wait_0@ == message
            },
            Sent::Refused(code, body) => r is End && r->End_0 == 1 && r->End_1@
                == "collector refused the test alert: HTTP "@ + dec(code as nat) + " "@ + trimmed(
                body@,
            ),
            Sent::Unreachable(why) => r is End && r->End_0 == 2 && r->End_1@
                == "cannot reach the running collector on "@ + addr@ + ": "@ + why@,
        },
{
    match sent {
        Sent::Accepted(body) => {
            let want = match member_str(body.as_str(), "message") {
                Some(m) => m,
                None => String::new(),
            };
            proof {
                assert forall|message: Seq<char>, rule: Seq<char>|
                    body@ == #[trigger] queued_body(message, rule) implies want@ == message by {
                    lemma_queued_body(message, rule);
                }
            }
            AfterSend::Wait(want)
        },
        Sent::Refused(code, body) => {
            let mut s = "collector refused the test alert: HTTP ".to_owned();
            s.append(dec_u64(*code as u64).as_str());
            s.append(" ");
            s.append(trim(body.as_str()).as_str());
            AfterSend::End(1, s)
        },
        Sent::Unreachable(why) => {
            let mut s = "cannot reach the running collector on ".to_owned();
            s.append(addr);
            s.append(": ");
            s.append(why.as_str());
            AfterSend::End(2, s)
        },
    }
}

/// How often the status is looked at, a second apart, before the client gives up.
pub fn send_test_alert_attempts(poll_secs: u64) -> (r: u64)
    requires
        poll_secs <= 0x1fff_ffff_ffff_ffff,
    ensures
        r == (if poll_secs > 1 {
            poll_secs as int
        } else {
            1
        }) * 4 + 10,
{
    let turns: u64 = if poll_secs > 1 {
        poll_secs
    } else {
        1
    };
    turns * 4 + 10
}

/// Whether a row of the status is the alert that is waited for: of the test rule, with the message,
/// and not from before it was sent.
pub open spec fn is_awaited(row: Seq<char>, rule: Seq<char>, want: Seq<char>, sent_at: i64) -> bool {
    &&& member_string(row, "rule"@) == Some(rule)
    &&& member_string(row, "message"@) == Some(want)
    &&& member_int(row, "ts"@) is Some
    &&& member_int(row, "ts"@)->0 >= sent_at - 1
}

/// Whether the members of a row are those of the alert that is waited for.
pub open spec fn has_awaited(
    ms: Seq<(Seq<char>, Field)>,
    rule: Seq<char>,
    want: Seq<char>,
    sent_at: i64,
) -> bool {
    &&& text_field(member_of(ms, "rule"@)) == Some(rule)
    &&& text_field(member_of(ms, "message"@)) == Some(want)
    &&& int_field(member_of(ms, "ts"@)) is Some
    &&& int_field(member_of(ms, "ts"@))->0 >= sent_at - 1
}

/// Whether a row of the status is the alert that is waited for.
pub fn is_awaited_row(row: &str, rule: &str, want: &str, sent_at: i64) -> (r: bool)
    ensures
        r == is_awaited(row@, rule@, want@, sent_at),
        forall|ms: Seq<(Seq<char>, Field)>| #[trigger]
            writes(row@, ms) ==> r == has_awaited(ms, rule@, want@, sent_at),
{
    let of_rule = match member_str(row, "rule") {
        Some(s) => same(s.as_str(), rule),
        None => false,
    };
    let says = match member_str(row, "message") {
        Some(s) => same(s.as_str(), want),
        None => false,
    };
    let fresh = match member_i64(row, "ts") {
        Some(t) => t as i128 >= sent_at as i128 - 1,
        None => false,
    };
    of_rule && says && fresh
}

/// The first of some rows that is the alert that is waited for.
pub open spec fn awaited(
    rows: Seq<Seq<char>>,
    rule: Seq<char>,
    want: Seq<char>,
    sent_at: i64,
) -> Option<Seq<char>>
    decreases rows.len(),
{
    if rows.len() == 0 {
        None
    } else if is_awaited(rows[0], rule, want, sent_at) {
        Some(rows[0])
    } else {
        awaited(rows.drop_first(), rule, want, sent_at)
    }
}

/// The first of some rows that is the alert that is waited for.
pub fn find_row(rows: &Vec<String>, rule: &str, want: &str, sent_at: i64) -> (r: Option<String>)
    ensures
        opt_view(r) == awaited(views(rows@), rule@, want@, sent_at),
{
    let mut i: usize = 0;
    let ghost all = views(rows@);
    assert(all.skip(0) =~= all);
    while i < rows.len()
        invariant
            i <= rows@.len(),
            all == views(rows@),
            awaited(views(rows@), rule@, want@, sent_at) == awaited(
                all.skip(i as int),
                rule@,
                want@,
                sent_at,
            ),
        decreases rows@.len() - i,
    {
        proof {
            assert(all.skip(i as int)[0] == rows@[i as int]@);
            assert(all.skip(i as int).drop_first() =~= all.skip(i + 1));
        }
        if is_awaited_row(rows[i].as_str(), rule, want, sent_at) {
            return Some(rows[i].clone());
        }
        i += 1;
    }
    None
}

/// The alert that is waited for, in what the status says, where it is there.
pub fn row_in_status(status: &str, rule: &str, want: &str, sent_at: i64) -> (r: Option<String>)
    ensures
        opt_view(r) == (match member_elements(status@, "alerts"@) {
            Some(rows) => awaited(rows, rule@, want@, sent_at),
            None => None,
        }),
{
    match member_rows(status, "alerts") {
        Some(rows) => find_row(&rows, rule, want, sent_at),
        None => None,
    }
}

// --------------------------------------------------- what the arguments come to

/// Each argument sets its own and leaves what the others have set; the two that need a value take the
/// one behind them, and end the program where there is none. The version and the usage are shown at
/// once, whatever follows, and an argument that is not known ends the program and is named.
pub proof fn law_each_argument_sets_its_own(
    argv: Seq<Seq<char>>,
    at: int,
    a: ArgsView,
    usage: Seq<char>,
)
    requires
        0 <= at <= argv.len(),
    ensures
        at == argv.len() ==> asked(argv, at, a, usage) == CommandView::Start(a),
        at < argv.len() ==> {
            let word = argv[at];
            let known = seq![
                "--config"@,
                "--check-config"@,
                "--detect"@,
                "--test-alert"@,
                "--version"@,
                "-V"@,
                "--help"@,
                "-h"@,
            ];
            let r = asked(argv, at, a, usage);
            &&& word == "--check-config"@ ==> r == asked(
                argv,
                at + 1,
                (ArgsView { check_only: true, ..a }),
                usage,
            )
            &&& word == "--detect"@ ==> r == asked(
                argv,
                at + 1,
                (ArgsView { detect_only: true, ..a }),
                usage,
            )
            &&& word == "--config"@ && at + 1 < argv.len() ==> r == asked(
                argv,
                at + 2,
                (ArgsView { config: Some(argv[at + 1]), ..a }),
                usage,
            )
            &&& word == "--test-alert"@ && at + 1 < argv.len() ==> r == asked(
                argv,
                at + 2,
                (ArgsView { test_alert: Some(argv[at + 1]), ..a }),
                usage,
            )
            &&& (word == "--config"@ || word == "--test-alert"@) && at + 1 == argv.len() ==> (r
                matches CommandView::Die(s) && crate::text::starts(s, word + " needs a "@))
            &&& word == "--version"@ || word == "-V"@ ==> r == CommandView::Version
            &&& word == "--help"@ || word == "-h"@ ==> r == CommandView::Help
            &&& !known.contains(word) ==> (r matches CommandView::Die(s) && crate::text::holds(s, word)
                && crate::text::ends(s, usage))
        },
{
    if at < argv.len() {
        let word = argv[at];
        let known = seq![
            "--config"@,
            "--check-config"@,
            "--detect"@,
            "--test-alert"@,
            "--version"@,
            "-V"@,
            "--help"@,
            "-h"@,
        ];
        assert(known[0] == "--config"@ && known[1] == "--check-config"@ && known[2] == "--detect"@);
        assert(known[3] == "--test-alert"@ && known[4] == "--version"@ && known[5] == "-V"@);
        assert(known[6] == "--help"@ && known[7] == "-h"@);
        reveal_strlit("--config");
        reveal_strlit("--check-config");
        reveal_strlit("--detect");
        reveal_strlit("--test-alert");
        reveal_strlit("--version");
        reveal_strlit("-V");
        reveal_strlit("--help");
        reveal_strlit("-h");
        assert("--config"@[2] == 'c' && "--detect"@[2] == 'd' && "--config"@[3] == 'o');
        assert("--check-config"@.len() == 14 && "--test-alert"@.len() == 12 && "--version"@.len() == 9);
        assert("-V"@[1] == 'V' && "-h"@[1] == 'h' && "-V"@.len() == 2 && "-h"@.len() == 2);
        assert("--help"@.len() == 6 && "--config"@.len() == 8 && "--detect"@.len() == 8);
        if at + 1 == argv.len() {
            reveal_strlit("--config needs a path");
            reveal_strlit("--test-alert needs a message");
            reveal_strlit(" needs a ");
            let c = "--config needs a path"@;
            let t = "--test-alert needs a message"@;
            assert(c.take(17) =~= "--config"@ + " needs a "@);
            assert(t.take(21) =~= "--test-alert"@ + " needs a "@);
        }
        if !known.contains(word) {
            let s = "unknown argument "@ + word + "\n"@ + usage;
            assert(s =~= "unknown argument "@ + word + ("\n"@ + usage));
            crate::text::lemma_stands_between("unknown argument "@, word, "\n"@ + usage);
            assert(s.skip(s.len() - usage.len()) =~= usage);
        }
    }
}

/// The wizards are asked for by the first argument alone; without arguments the collector starts with
/// nothing set.
pub proof fn law_the_first_argument_names_a_wizard(argv: Seq<Seq<char>>, usage: Seq<char>)
    ensures
        argv.len() == 0 ==> (command_of(argv, usage) matches CommandView::Start(a) && a.config is None
            && !a.check_only && !a.detect_only && a.test_alert is None),
        command_of(argv, usage) is CostSetup <==> argv.len() > 0 && argv[0] == "cost-setup"@,
        command_of(argv, usage) is Setup <==> argv.len() > 0 && argv[0] == "setup"@,
{
    reveal_strlit("cost-setup");
    reveal_strlit("setup");
    assert("setup"@.len() < "cost-setup"@.len());
    lemma_no_wizard(
        argv,
        0,
        (ArgsView { config: None, check_only: false, detect_only: false, test_alert: None }),
        usage,
    );
}

proof fn lemma_no_wizard(argv: Seq<Seq<char>>, at: int, a: ArgsView, usage: Seq<char>)
    ensures
        !(asked(argv, at, a, usage) is CostSetup),
        !(asked(argv, at, a, usage) is Setup),
    decreases argv.len() - at,
{
    if 0 <= at < argv.len() {
        if argv[at] == "--config"@ {
            if at + 1 < argv.len() {
                lemma_no_wizard(argv, at + 2, (ArgsView { config: Some(argv[at + 1]), ..a }), usage);
            }
        } else if argv[at] == "--check-config"@ {
            lemma_no_wizard(argv, at + 1, (ArgsView { check_only: true, ..a }), usage);
        } else if argv[at] == "--detect"@ {
            lemma_no_wizard(argv, at + 1, (ArgsView { detect_only: true, ..a }), usage);
        } else if argv[at] == "--test-alert"@ {
            if at + 1 < argv.len() {
                lemma_no_wizard(
                    argv,
                    at + 2,
                    (ArgsView { test_alert: Some(argv[at + 1]), ..a }),
                    usage,
                );
            }
        }
    }
}

/// The alert that is waited for is the first row of the test rule with the very message that was
/// queued, from no more than a second before it was sent; an older alert with the same message is
/// passed over.
pub proof fn law_an_old_alert_is_not_taken_for_the_new(
    rows: Seq<Seq<char>>,
    rule: Seq<char>,
    want: Seq<char>,
    sent_at: i64,
)
    ensures
        match awaited(rows, rule, want, sent_at) {
            Some(row) => {
                &&& rows.contains(row)
                &&& member_string(row, "rule"@) == Some(rule)
                &&& member_string(row, "message"@) == Some(want)
                &&& member_int(row, "ts"@) is Some && member_int(row, "ts"@)->0 + 1 >= sent_at
            },
            None => forall|i: int|
                0 <= i < rows.len() && member_string(#[trigger] rows[i], "rule"@) == Some(rule)
                    && member_string(rows[i], "message"@) == Some(want) && member_int(rows[i], "ts"@)
                    is Some ==> member_int(rows[i], "ts"@)->0 < sent_at - 1,
        },
    decreases rows.len(),
{
    if rows.len() > 0 {
        if is_awaited(rows[0], rule, want, sent_at) {
            assert(rows.contains(rows[0]));
        } else {
            let rest = rows.drop_first();
            law_an_old_alert_is_not_taken_for_the_new(rest, rule, want, sent_at);
            match awaited(rows, rule, want, sent_at) {
                Some(row) => {
                    let i = choose|i: int| 0 <= i < rest.len() && rest[i] == row;
                    assert(rows[i + 1] == row);
                },
                None => {
                    assert forall|i: int|
                        0 <= i < rows.len() && member_string(#[trigger] rows[i], "rule"@) == Some(rule)
                            && member_string(rows[i], "message"@) == Some(want) && member_int(
                            rows[i],
                            "ts"@,
                        ) is Some implies member_int(rows[i], "ts"@)->0 < sent_at - 1 by {
                        if i > 0 {
                            assert(rest[i - 1] == rows[i]);
                        }
                    }
                },
            }
        }
    }
}

/// A start does one thing: it shows the configuration where that is asked for, else the engines, else
/// it sends the test alert, and with nothing asked for it collects. The file that was named is read,
/// and must be there; the other may be missing.
pub proof fn law_a_start_does_one_thing(
    a: Args,
    task: Task,
    home: &str,
    path: String,
    shown: &str,
    why: &str,
    fault: Option<String>,
)
    requires
        call_ensures(Args::task, (&a,), task),
        call_ensures(Args::config_path, (&a, home), path),
        call_ensures(Args::config_missing, (&a, shown, why), fault),
    ensures
        task == Task::Collect <==> !a.check_only && !a.detect_only && a.test_alert is None,
        task == Task::ShowConfig <==> a.check_only,
        task == Task::Detect <==> a.detect_only && !a.check_only,
        task == Task::TestAlert <==> a.test_alert is Some && !a.check_only && !a.detect_only,
        a.config is Some ==> path@ == a.config->0@,
        a.config is None ==> crate::text::starts(path@, home@),
        fault is Some <==> a.config is Some,
{
    assert(path@.take(home@.len() as int) =~= home@ || a.config is Some);
}

/// A test alert that was accepted is waited for under the message that the collector queued; one that
/// was refused or found nobody ends the program, each with its own code, and says so.
pub proof fn law_a_test_alert_that_was_not_taken_ends(addr: &str, sent: Sent, r: AfterSend)
    requires
        call_ensures(after_send, (addr, &sent), r),
    ensures
        r is Wait <==> sent is Accepted,
        sent is Refused ==> r->End_0 == 1,
        sent is Unreachable ==> r->End_0 == 2,
        sent matches Sent::Unreachable(why) ==> crate::text::ends(r->End_1@, why@),
        sent matches Sent::Accepted(body) ==> forall|message: Seq<char>, rule: Seq<char>|
            body@ == #[trigger] queued_body(message, rule) ==> r->Wait_0@ == message,
{
    if let Sent::Unreachable(why) = sent {
        let s = r->End_1@;
        assert(s.skip(s.len() - why@.len()) =~= why@);
    }
}

} // verus!
