//! A benchmark run: whether it may start, what counts as its own load, when it must stop, and what
//! its end is called.

use crate::cmd::CmdOutput;
use crate::json::{
    lemma_plain_text, member_again, member_i64, member_int, member_of, member_str, member_string,
    member_text, quoted, quoted_text, writes, Field,
};
use crate::text::{
    chars_of, contains, dec, dec_i64, dec_int, dec_u64, head, holds, join, joined, lines, lines_of,
    opt_view, parse_i64, parse_int, same, split, split_on, take, trim, trimmed, views,
};
use vstd::prelude::*;
use vstd::string::*;

verus! {

// -------------------------------------------------------------------- profiles

/// What a benchmark measures.
#[derive(Clone, Copy, PartialEq, Eq, Structural, Debug)]
pub enum Profile {
    Quick,
    Full,
    Accuracy,
    DryRun,
}

/// The name of a profile.
pub open spec fn profile_name(p: Profile) -> Seq<char> {
    match p {
        Profile::Quick => "quick"@,
        Profile::Full => "full"@,
        Profile::Accuracy => "accuracy"@,
        Profile::DryRun => "dry-run"@,
    }
}

impl Profile {
    /// The name of the profile.
    pub fn name(self) -> (r: String)
        ensures
            r@ == profile_name(self),
    {
        match self {
            Profile::Quick => "quick".to_owned(),
            Profile::Full => "full".to_owned(),
            Profile::Accuracy => "accuracy".to_owned(),
            Profile::DryRun => "dry-run".to_owned(),
        }
    }
}

/// A result as values.
pub open spec fn res_view(r: Result<String, String>) -> Result<Seq<char>, Seq<char>> {
    match r {
        Ok(s) => Ok(s@),
        Err(e) => Err(e@),
    }
}

// ----------------------------------------------------------------- the harness

/// The sentence for a harness that is not configured.
pub open spec fn no_harness_text() -> Seq<char> {
    "the benchmark harness is not set up. `lss bench` wraps llm_decode_bench.py (github.com/local-inference-lab/llm-inference-bench): clone it on this machine and set its path as `[bench] harness = \"…\"` in the collector's config, then restart the collector"@
}

/// The harness on this machine: its path, or the sentence to show the person.
pub open spec fn local_harness(configured: Seq<char>, path: Seq<char>, is_file: bool) -> Result<
    Seq<char>,
    Seq<char>,
> {
    if trimmed(configured).len() == 0 {
        Err(no_harness_text())
    } else if !is_file {
        Err(
            "the benchmark harness is not at "@ + path
                + " (`[bench] harness` in the collector's config): clone github.com/local-inference-lab/llm-inference-bench there, or fix the path"@,
        )
    } else {
        Ok(path)
    }
}

/// The harness on this machine: its path, or the sentence to show the person. `path` is the
/// configured one with the home directory filled in, `is_file` whether a file is there.
pub fn harness_path(configured: &str, path: &str, is_file: bool) -> (r: Result<String, String>)
    ensures
        res_view(r) == local_harness(configured@, path@, is_file),
{
    if trim(configured).as_str().is_empty() {
        return Err(
            "the benchmark harness is not set up. `lss bench` wraps llm_decode_bench.py (github.com/local-inference-lab/llm-inference-bench): clone it on this machine and set its path as `[bench] harness = \"…\"` in the collector's config, then restart the collector".to_owned(),
        );
    }
    if !is_file {
        let mut s = "the benchmark harness is not at ".to_owned();
        s.append(path);
        s.append(
            " (`[bench] harness` in the collector's config): clone github.com/local-inference-lab/llm-inference-bench there, or fix the path",
        );
        return Err(s);
    }
    Ok(path.to_owned())
}

/// The words that look for the harness on the far side of a launcher and say what they found.
pub open spec fn look_words(quoted: Seq<char>) -> Seq<Seq<char>> {
    seq![
        "test"@,
        "-f"@,
        quoted,
        "&&"@,
        "echo"@,
        "lss-harness-found"@,
        "||"@,
        "echo"@,
        "lss-harness-missing"@,
    ]
}

/// The command that looks for the harness on the far side of a launcher.
pub fn look_argv(launcher: &Vec<String>, quoted: &str) -> (r: Vec<String>)
    ensures
        views(r@) == views(launcher@) + look_words(quoted@),
{
    let mut argv: Vec<String> = Vec::new();
    let mut i: usize = 0;
    while i < launcher.len()
        invariant
            i <= launcher@.len(),
            argv@ == launcher@.take(i as int),
        decreases launcher@.len() - i,
    {
        argv.push(launcher[i].clone());
        i += 1;
    }
    argv.push("test".to_owned());
    argv.push("-f".to_owned());
    argv.push(quoted.to_owned());
    argv.push("&&".to_owned());
    argv.push("echo".to_owned());
    argv.push("lss-harness-found".to_owned());
    argv.push("||".to_owned());
    argv.push("echo".to_owned());
    argv.push("lss-harness-missing".to_owned());
    assert(views(argv@) =~= views(launcher@) + look_words(quoted@));
    argv
}

/// The last line of what a command said, or `or` where it said nothing.
pub open spec fn last_word(said: Seq<char>, or: Seq<char>) -> Seq<char> {
    let ls = lines_of(said);
    if ls.len() > 0 {
        ls.last()
    } else {
        or
    }
}

/// The last line of what a command said, or `or` where it said nothing.
pub fn last_line_or(said: &str, or: &str) -> (r: String)
    ensures
        r@ == last_word(said@, or@),
{
    let ls = lines(said);
    assert(views(ls@).len() == ls@.len());
    if ls.len() > 0 {
        assert(views(ls@).last() == ls@.last()@);
        ls[ls.len() - 1].clone()
    } else {
        or.to_owned()
    }
}

/// What the far side's answer means. The answer is a word on standard output: a launcher that
/// failed says neither, and that is not a missing file.
pub open spec fn remote_harness(
    launcher: Seq<Seq<char>>,
    word: Seq<char>,
    run: Result<CmdOutput, String>,
) -> Result<Seq<char>, Seq<char>> {
    match run {
        Ok(o) => if holds(o.stdout@, "lss-harness-found"@) {
            Ok(word)
        } else if !holds(o.stdout@, "lss-harness-missing"@) {
            Err(
                "could not check the benchmark harness over the ssh launcher ("@ + joined(launcher, " "@)
                    + "): "@ + last_word(trimmed(o.stderr@), "no answer"@),
            )
        } else {
            Err(
                "the benchmark harness is not at "@ + word
                    + " on the remote side of the ssh launcher ("@ + joined(launcher, " "@)
                    + "; `~` there is the REMOTE user's home): clone github.com/local-inference-lab/llm-inference-bench there, or fix `[bench] harness`"@,
            )
        },
        Err(e) => Err("could not check the benchmark harness over the ssh launcher: "@ + e@),
    }
}

/// What the far side's answer means. The answer is a word on standard output: a launcher that
/// failed says neither, and that is not a missing file.
pub fn run_harness_path(
    launcher: &Vec<String>,
    word: &str,
    run: &Result<CmdOutput, String>,
) -> (r: Result<String, String>)
    ensures
        res_view(r) == remote_harness(views(launcher@), word@, *run),
{
    match run {
        Ok(o) => {
            if contains(o.stdout.as_str(), "lss-harness-found") {
                Ok(word.to_owned())
            } else if !contains(o.stdout.as_str(), "lss-harness-missing") {
                let mut s = "could not check the benchmark harness over the ssh launcher (".to_owned();
                s.append(join(launcher, " ").as_str());
                s.append("): ");
                s.append(last_line_or(trim(o.stderr.as_str()).as_str(), "no answer").as_str());
                Err(s)
            } else {
                let mut s = "the benchmark harness is not at ".to_owned();
                s.append(word);
                s.append(" on the remote side of the ssh launcher (");
                s.append(join(launcher, " ").as_str());
                s.append(
                    "; `~` there is the REMOTE user's home): clone github.com/local-inference-lab/llm-inference-bench there, or fix `[bench] harness`",
                );
                Err(s)
            }
        },
        Err(e) => {
            let mut s = "could not check the benchmark harness over the ssh launcher: ".to_owned();
            s.append(e.as_str());
            Err(s)
        },
    }
}

/// A far side that cannot be asked is never told as a harness that is missing: the sentence of a
/// missing harness comes only with the far side's own word for it.
pub proof fn law_failed_launcher_is_not_a_missing_harness(
    launcher: Seq<Seq<char>>,
    word: Seq<char>,
    o: CmdOutput,
)
    requires
        !holds(o.stdout@, "lss-harness-found"@),
        !holds(o.stdout@, "lss-harness-missing"@),
    ensures
        remote_harness(launcher, word, Ok(o)) is Err,
        crate::text::starts(
            remote_harness(launcher, word, Ok(o))->Err_0,
            "could not check the benchmark harness"@,
        ),
{
    reveal_strlit("could not check the benchmark harness");
    reveal_strlit("could not check the benchmark harness over the ssh launcher (");
    let a = "could not check the benchmark harness"@;
    let b = "could not check the benchmark harness over the ssh launcher ("@;
    let s = remote_harness(launcher, word, Ok(o))->Err_0;
    assert(s.take(a.len() as int) =~= b.take(a.len() as int));
    assert(b.take(a.len() as int) =~= a);
}

/// A harness on this machine is used exactly where one is configured and its file is there, and then by
/// its path; and a sentence about a file that is not there names the path.
pub proof fn law_a_harness_is_used_where_it_is(configured: Seq<char>, path: Seq<char>, is_file: bool)
    ensures
        local_harness(configured, path, is_file) is Ok <==> trimmed(configured).len() > 0 && is_file,
        local_harness(configured, path, is_file) matches Ok(p) ==> p == path,
        trimmed(configured).len() > 0 && !is_file ==> holds(
            local_harness(configured, path, is_file)->Err_0,
            path,
        ),
{
    crate::text::lemma_stands_between(
        "the benchmark harness is not at "@,
        path,
        " (`[bench] harness` in the collector's config): clone github.com/local-inference-lab/llm-inference-bench there, or fix the path"@,
    );
}

/// A harness on the far side of a launcher is used exactly where the far side says that it found it,
/// and then by the word that was asked with.
pub proof fn law_a_far_harness_is_used_where_it_was_found(
    launcher: Seq<Seq<char>>,
    word: Seq<char>,
    run: Result<CmdOutput, String>,
)
    ensures
        remote_harness(launcher, word, run) is Ok <==> (run matches Ok(o) && holds(
            o.stdout@,
            "lss-harness-found"@,
        )),
        remote_harness(launcher, word, run) matches Ok(w) ==> w == word,
        run matches Err(e) ==> holds(remote_harness(launcher, word, run)->Err_0, e@),
{
    if let Err(e) = run {
        let a = "could not check the benchmark harness over the ssh launcher: "@;
        assert(a + e@ =~= a + e@ + Seq::<char>::empty());
        crate::text::lemma_stands_between(a, e@, Seq::empty());
    }
}

// -------------------------------------------------------------------- the lock

/// The process id that a lock file names: 0 where it names none.
pub open spec fn lock_pid(held: Option<Seq<char>>) -> i32 {
    match held {
        Some(t) => match member_int(t, "pid"@) {
            Some(n) => n as i32,
            None => 0,
        },
        None => 0,
    }
}

/// The line of a lock file.
pub open spec fn lock_line(pid: int, profile: Seq<char>, now: int) -> Seq<char> {
    "{\"pid\":"@ + dec_int(pid) + ",\"profile\":"@ + quoted_text(profile) + ",\"started_at\":"@
        + dec_int(now) + "}\n"@
}

/// What the line of a lock file holds.
pub open spec fn lock_members(pid: i64, profile: Seq<char>, now: i64) -> Seq<(Seq<char>, Field)> {
    seq![
        ("pid"@, Field::Int(pid)),
        ("profile"@, Field::Text(profile)),
        ("started_at"@, Field::Int(now)),
    ]
}

#[verifier::rlimit(40)]
#[verifier::spinoff_prover]
proof fn lemma_lock_line(pid: i64, profile: Seq<char>, now: i64)
    ensures
        writes(lock_line(pid as int, profile, now as int), lock_members(pid, profile, now)),
        member_of(lock_members(pid, profile, now), "pid"@) == Some(Field::Int(pid)),
        member_of(lock_members(pid, profile, now), "profile"@) == Some(Field::Text(profile)),
        member_of(lock_members(pid, profile, now), "started_at"@) == Some(Field::Int(now)),
{
    reveal_strlit("pid");
    reveal_strlit("profile");
    reveal_strlit("started_at");
    reveal_strlit("{\"pid\":");
    reveal_strlit(",\"profile\":");
    reveal_strlit(",\"started_at\":");
    reveal_strlit("}\n");
    lemma_plain_text("pid"@);
    lemma_plain_text("profile"@);
    lemma_plain_text("started_at"@);
    reveal_with_fuel(crate::json::members_text, 4);
    reveal_with_fuel(member_of, 4);
    let ms = lock_members(pid, profile, now);
    let two = ms.drop_last();
    let one = two.drop_last();
    assert(one =~= seq![ms[0]]);
    assert(two =~= seq![ms[0], ms[1]]);
    assert(lock_line(pid as int, profile, now as int) =~= (seq!['{'] + crate::json::members_text(ms)
        + seq!['}']).push('\n'));
}

/// The process id that a lock file names: 0 where it names none. A lock file that was written as
/// here names the process that wrote it.
pub fn held_pid(held: &Option<String>) -> (r: i32)
    ensures
        r == lock_pid(opt_view(*held)),
        forall|pid: i32, profile: Seq<char>, now: i64|
            opt_view(*held) == Some(#[trigger] lock_line(pid as int, profile, now as int)) ==> r == pid,
{
    let r: i32 = match held {
        Some(t) => match member_i64(t.as_str(), "pid") {
            Some(n) =>
                #[verifier::truncate]
                (n as i32),
            None => 0,
        },
        None => 0,
    };
    proof {
        assert forall|pid: i32, profile: Seq<char>, now: i64|
            opt_view(*held) == Some(#[trigger] lock_line(pid as int, profile, now as int)) implies r
            == pid by {
            lemma_lock_line(pid as i64, profile, now);
        }
    }
    r
}

/// Whether a process lives: one that exists, or one of somebody else's that may not be asked.
pub fn pid_alive(pid: i32, found: bool, forbidden: bool) -> (r: bool)
    ensures
        r == (pid > 0 && (found || forbidden)),
{
    pid > 0 && (found || forbidden)
}

/// The line of a lock file.
pub fn lock_text(pid: u32, profile: &str, now: i64) -> (r: String)
    ensures
        r@ == lock_line(pid as int, profile@, now as int),
{
    let mut s = "{\"pid\":".to_owned();
    s.append(dec_i64(pid as i64).as_str());
    s.append(",\"profile\":");
    s.append(quoted(profile).as_str());
    s.append(",\"started_at\":");
    s.append(dec_i64(now).as_str());
    s.append("}\n");
    s
}

/// The sentence for a lock that a living process holds.
pub open spec fn held_sentence(pid: int, profile: Seq<char>, secs: int) -> Seq<char> {
    "a benchmark is already running ("@ + profile + ", started "@ + dec_int(secs) + "s ago, pid "@
        + dec_int(pid)
        + "): one at a time. `lss bench status` shows it, `lss bench cancel` stops it"@
}

/// The sentence for a lock that a living process holds, from what the lock file says.
pub open spec fn lock_held_text(held: Option<Seq<char>>, now: int) -> Seq<char> {
    let profile = match held {
        Some(t) => match member_string(t, "profile"@) {
            Some(p) => p,
            None => "?"@,
        },
        None => "?"@,
    };
    let since = match held {
        Some(t) => match member_int(t, "started_at"@) {
            Some(n) => n as int,
            None => now,
        },
        None => now,
    };
    held_sentence(lock_pid(held) as int, profile, now - since)
}

fn dec_i128_diff(now: i64, since: i64) -> (r: String)
    ensures
        r@ == dec_int(now - since),
{
    if now >= since {
        dec_u64((now as i128 - since as i128) as u64)
    } else {
        let mut s = String::new();
        s.push('-');
        s.append(dec_u64((since as i128 - now as i128) as u64).as_str());
        s
    }
}

fn lock_held(held: &Option<String>, now: i64) -> (r: String)
    ensures
        r@ == lock_held_text(opt_view(*held), now as int),
        forall|pid: i32, profile: Seq<char>, since: i64|
            opt_view(*held) == Some(#[trigger] lock_line(pid as int, profile, since as int)) ==> r@
                == held_sentence(pid as int, profile, now - since),
{
    let mut s = "a benchmark is already running (".to_owned();
    let mut since: i64 = now;
    let mut profile = "?".to_owned();
    if let Some(t) = held {
        if let Some(p) = member_str(t.as_str(), "profile") {
            profile = p;
        }
        if let Some(n) = member_i64(t.as_str(), "started_at") {
            since = n;
        }
    }
    s.append(profile.as_str());
    s.append(", started ");
    s.append(dec_i128_diff(now, since).as_str());
    s.append("s ago, pid ");
    s.append(dec_i64(held_pid(held) as i64).as_str());
    s.append("): one at a time. `lss bench status` shows it, `lss bench cancel` stops it");
    proof {
        assert forall|pid: i32, started: Seq<char>, at: i64|
            opt_view(*held) == Some(#[trigger] lock_line(pid as int, started, at as int)) implies s@
            == held_sentence(pid as int, started, now - at) by {
            lemma_lock_line(pid as i64, started, at);
        }
    }
    s
}

/// What an attempt to create the lock file came to.
pub enum LockTry {
    Created,
    /// it was there: what it holds, where that was readable, and whether its process lives
    Held(Option<String>, bool),
    /// it could not be created for another reason: the path and the error
    Failed(String, String),
}

/// What follows an attempt.
pub enum LockStep {
    Taken,
    Refused(String),
    /// the lock is a dead process's: it is removed, and the attempt repeated
    TakeOver,
    /// the lock is a dead process's once more: it is removed, and the request refused
    GiveUp(String),
}

/// Attempt number `attempt` (the first is 0) at the lock: a lock left by a process that no longer
/// exists is removed, and the attempt repeated once. A living process is told of by what it wrote into
/// the lock.
pub fn take_lock(attempt: u32, t: &LockTry, now: i64) -> (r: LockStep)
    ensures
        match *t {
            LockTry::Created => r is Taken,
            LockTry::Held(held, true) => {
                &&& r is Refused
                &&& r->Refused_0@ == lock_held_text(opt_view(held), now as int)
                &&& forall|pid: i32, profile: Seq<char>, since: i64|
                    opt_view(held) == Some(#[trigger] lock_line(pid as int, profile, since as int))
                        ==> r->Refused_0@ == held_sentence(pid as int, profile, now - since)
            },
            LockTry::Held(_, false) => if attempt == 0 {
                r is TakeOver
            } else {
                r is GiveUp && r->GiveUp_0@ == "cannot take the bench lock"@
            },
            LockTry::Failed(path, e) => r is Refused && r->Refused_0@
                == "cannot create the bench lock "@ + path@ + ": "@ + e@,
        },
{
    match t {
        LockTry::Created => LockStep::Taken,
        LockTry::Held(held, alive) => if *alive {
            LockStep::Refused(lock_held(held, now))
        } else if attempt == 0 {
            LockStep::TakeOver
        } else {
            LockStep::GiveUp("cannot take the bench lock".to_owned())
        },
        LockTry::Failed(path, e) => {
            let mut s = "cannot create the bench lock ".to_owned();
            s.append(path.as_str());
            s.append(": ");
            s.append(e.as_str());
            LockStep::Refused(s)
        },
    }
}

/// At the start: whether a lock that is there is removed. It is when its process is dead, or is this
/// one.
pub fn recover(pid: i32, alive: bool, own: u32) -> (r: bool)
    ensures
        r == (!alive || pid == own as i32),
{
    !alive || pid == #[verifier::truncate]
    (own as i32)
}

// -------------------------------------------------------------------- starting

/// What somebody asks for.
pub struct BenchRequest {
    pub profile: String,
    pub dataset: String,
    pub note: String,
    pub force: bool,
    pub under_load: bool,
}

/// The profile that a request asks for, from the name it gives: the quick one where it gives none.
pub fn asked_profile(profile: &str) -> (r: String)
    ensures
        r@ == (if profile@.len() == 0 {
            "quick"@
        } else {
            profile@
        }),
{
    if profile.is_empty() {
        "quick".to_owned()
    } else {
        profile.to_owned()
    }
}

impl BenchRequest {
    /// Whether the idle gate lets the request pass on a busy server: it is forced, or it is to measure
    /// with the traffic that is there.
    pub fn forced(&self) -> (r: bool)
        ensures
            r == (self.force || self.under_load),
    {
        self.force || self.under_load
    }
}

/// What the person is answered.
pub struct BenchStarted {
    pub ok: bool,
    pub run_id: Option<i64>,
    pub message: String,
    pub under_load: bool,
}

/// What is seen of the server when it is asked whether it is idle.
pub struct IdleSeen {
    /// the profile of a benchmark that runs, where one runs
    pub running: Option<Option<String>>,
    /// what the idle gate says
    pub idle: Result<(), String>,
    pub serve_up: bool,
    pub down_reason: Option<String>,
    pub model: Option<String>,
}

/// What is known of a request so far. What is not known yet is found out in this order.
pub struct Seen {
    /// the profile that the request names, where there is one of that name
    pub profile: Option<Profile>,
    /// whether a harness is configured
    pub harness_set: bool,
    pub harness: Option<Result<String, String>>,
    pub server: Option<IdleSeen>,
    /// whether the lock was taken
    pub lock: Option<Result<(), String>>,
    /// the id that the run was recorded under
    pub record: Option<Result<i64, String>>,
    /// whether the lock was released again
    pub released: bool,
}

/// What comes next for a request.
pub enum StartStep {
    FindHarness,
    LookAtServer,
    /// the lock is taken for this profile
    TakeLock(Profile),
    /// the run is recorded, on this model
    Record(Profile, String),
    /// the run cannot be recorded: the lock is released before that is said
    ReleaseLock,
    Answer(u16, BenchStarted),
}

/// What comes next for a request, as values.
pub enum StepView {
    FindHarness,
    LookAtServer,
    TakeLock(Profile),
    Record(Profile, Seq<char>),
    ReleaseLock,
    Answer(int, bool, Option<i64>, Seq<char>, bool),
}

/// A step as values.
pub open spec fn step_view(s: StartStep) -> StepView {
    match s {
        StartStep::FindHarness => StepView::FindHarness,
        StartStep::LookAtServer => StepView::LookAtServer,
        StartStep::TakeLock(p) => StepView::TakeLock(p),
        StartStep::Record(p, m) => StepView::Record(p, m@),
        StartStep::ReleaseLock => StepView::ReleaseLock,
        StartStep::Answer(c, b) => StepView::Answer(
            c as int,
            b.ok,
            b.run_id,
            b.message@,
            b.under_load,
        ),
    }
}

/// A refusal. It repeats whether the request was to run under load.
pub open spec fn refusal(req: BenchRequest, code: int, message: Seq<char>) -> StepView {
    StepView::Answer(code, false, None, message, req.under_load)
}

/// The sentence for a benchmark that runs already.
pub open spec fn running_text(profile: Option<Seq<char>>) -> Seq<char> {
    "a benchmark is already running ("@ + (match profile {
        Some(p) => p,
        None => Seq::empty(),
    }) + "): one at a time. `lss bench status` shows it, `lss bench cancel` stops it"@
}

/// The sentence for a benchmark that has started.
pub open spec fn started_text(p: Profile, model: Seq<char>, id: int, under_load: bool) -> Seq<char> {
    "benchmark `"@ + profile_name(p) + "` started on "@ + model + " (run "@ + dec_int(id) + "). "@
        + (if under_load {
        "It runs to the end WITH whatever else is on the server, and the scorecard records what that was."@
    } else {
        "It stops by itself if anyone else uses the server."@
    })
}

/// Whether a request can do without a harness: none is configured, and the profile does not need
/// one.
pub open spec fn builtin_will_do(p: Profile, harness_set: bool) -> bool {
    !harness_set && p != Profile::Accuracy && p != Profile::DryRun
}

/// What comes next for a request. A request is refused for the first of these that fails: the
/// profile, the dataset, the harness, another benchmark, a busy server, a server without a model,
/// the lock, the record.
pub open spec fn start_step(req: BenchRequest, datasets: Seq<Seq<char>>, seen: Seen) -> StepView {
    match seen.profile {
        None => refusal(
            req,
            400,
            "unknown profile `"@ + req.profile@ + "`: use quick, full, accuracy or dry-run"@,
        ),
        Some(profile) => if req.dataset@.len() > 0 && !crate::collect::listed(datasets, req.dataset@) {
            refusal(
                req,
                400,
                "unknown dataset `"@ + req.dataset@ + "`: use "@ + joined(datasets, ", "@),
            )
        } else {
            match seen.harness {
                None => StepView::FindHarness,
                Some(Err(e)) if !builtin_will_do(profile, seen.harness_set) => refusal(req, 409, e@),
                Some(_) => server_step(req, profile, seen),
            }
        },
    }
}

/// What comes next once the harness is settled.
pub open spec fn server_step(req: BenchRequest, profile: Profile, seen: Seen) -> StepView {
    match seen.server {
        None => StepView::LookAtServer,
        Some(s) => match s.running {
            Some(p) => refusal(req, 409, running_text(opt_view(p))),
            None => match s.idle {
                Err(why) => refusal(
                    req,
                    409,
                    if !s.serve_up && s.down_reason is Some {
                        why@ + " - "@ + (s.down_reason->0)@
                    } else {
                        why@
                    },
                ),
                Ok(()) => match s.model {
                    None => refusal(
                        req,
                        409,
                        "the serve has no model loaded: nothing to benchmark"@,
                    ),
                    Some(m) => lock_step(req, profile, m@, seen),
                },
            },
        },
    }
}

/// What comes next once the server is found idle, or is to be loaded as it is.
pub open spec fn lock_step(
    req: BenchRequest,
    profile: Profile,
    model: Seq<char>,
    seen: Seen,
) -> StepView {
    match seen.lock {
        None => StepView::TakeLock(profile),
        Some(Err(why)) => refusal(req, 409, why@),
        Some(Ok(())) => match seen.record {
            None => StepView::Record(profile, model),
            Some(Err(e)) => if seen.released {
                refusal(req, 500, "cannot record the run: "@ + e@)
            } else {
                StepView::ReleaseLock
            },
            Some(Ok(id)) => StepView::Answer(
                202,
                true,
                Some(id),
                started_text(profile, model, id as int, req.under_load),
                req.under_load,
            ),
        },
    }
}

fn refuse(req: &BenchRequest, code: u16, message: String) -> (r: StartStep)
    ensures
        step_view(r) == refusal(*req, code as int, message@),
{
    StartStep::Answer(
        code,
        BenchStarted { ok: false, run_id: None, message, under_load: req.under_load },
    )
}

/// What comes next for a request: what is still to be found out, or the answer.
pub fn request_start(req: &BenchRequest, datasets: &Vec<String>, seen: &Seen) -> (r: StartStep)
    ensures
        step_view(r) == start_step(*req, views(datasets@), *seen),
        r matches StartStep::Answer(code, b) ==> b.under_load == req.under_load && (code == 202 <==> b.ok)
            && (code == 400 <==> seen.profile is None || (req.dataset@.len() > 0 && !views(
            datasets@,
        ).contains(req.dataset@))),
{
    proof {
        law_the_first_gate_that_fails_decides(*req, views(datasets@), *seen);
    }
    let profile = match seen.profile {
        Some(p) => p,
        None => {
            let mut m = "unknown profile `".to_owned();
            m.append(req.profile.as_str());
            m.append("`: use quick, full, accuracy or dry-run");
            return refuse(req, 400, m);
        },
    };
    if !req.dataset.as_str().is_empty() && !crate::collect::is_listed(datasets, req.dataset.as_str()) {
        let mut m = "unknown dataset `".to_owned();
        m.append(req.dataset.as_str());
        m.append("`: use ");
        m.append(join(datasets, ", ").as_str());
        return refuse(req, 400, m);
    }
    match &seen.harness {
        None => {
            return StartStep::FindHarness;
        },
        Some(h) => {
            if let Err(e) = h {
                if seen.harness_set || profile == Profile::Accuracy || profile == Profile::DryRun {
                    return refuse(req, 409, e.clone());
                }
            }
        },
    }
    let s = match &seen.server {
        None => {
            return StartStep::LookAtServer;
        },
        Some(s) => s,
    };
    if let Some(p) = &s.running {
        let mut m = "a benchmark is already running (".to_owned();
        match p {
            Some(name) => {
                m.append(name.as_str());
            },
            None => {
                assert("a benchmark is already running ("@ + Seq::<char>::empty()
                    =~= "a benchmark is already running ("@);
            },
        }
        m.append("): one at a time. `lss bench status` shows it, `lss bench cancel` stops it");
        return refuse(req, 409, m);
    }
    if let Err(why) = &s.idle {
        let mut m = why.clone();
        if !s.serve_up {
            if let Some(reason) = &s.down_reason {
                m.append(" - ");
                m.append(reason.as_str());
            }
        }
        return refuse(req, 409, m);
    }
    let model = match &s.model {
        None => {
            return refuse(
                req,
                409,
                "the serve has no model loaded: nothing to benchmark".to_owned(),
            );
        },
        Some(m) => m,
    };
    match &seen.lock {
        None => {
            return StartStep::TakeLock(profile);
        },
        Some(l) => {
            if let Err(why) = l {
                return refuse(req, 409, why.clone());
            }
        },
    }
    match &seen.record {
        None => StartStep::Record(profile, model.clone()),
        Some(Err(e)) => {
            if !seen.released {
                return StartStep::ReleaseLock;
            }
            let mut m = "cannot record the run: ".to_owned();
            m.append(e.as_str());
            refuse(req, 500, m)
        },
        Some(Ok(id)) => {
            let mut m = "benchmark `".to_owned();
            m.append(profile.name().as_str());
            m.append("` started on ");
            m.append(model.as_str());
            m.append(" (run ");
            m.append(dec_i64(*id).as_str());
            m.append("). ");
            if req.under_load {
                m.append(
                    "It runs to the end WITH whatever else is on the server, and the scorecard records what that was.",
                );
            } else {
                m.append("It stops by itself if anyone else uses the server.");
            }
            StartStep::Answer(
                202,
                BenchStarted {
                    ok: true,
                    run_id: Some(*id),
                    message: m,
                    under_load: req.under_load,
                },
            )
        },
    }
}

/// A benchmark starts only where every gate was passed: the profile is known, no other runs, the
/// server is idle (or may be busy by request) and has a model, the lock is held and the
/// run is recorded. Whatever the answer, it repeats whether the run is under load.
pub proof fn law_start_needs_every_gate(req: BenchRequest, datasets: Seq<Seq<char>>, seen: Seen)
    ensures
        start_step(req, datasets, seen) matches StepView::Answer(code, ok, id, _, under) ==> {
            &&& under == req.under_load
            &&& ok == (code == 202)
            &&& ok == id is Some
            &&& ok ==> {
                &&& seen.profile is Some
                &&& req.dataset@.len() == 0 || crate::collect::listed(datasets, req.dataset@)
                &&& seen.harness is Some
                &&& seen.harness->0 is Ok || builtin_will_do(seen.profile->0, seen.harness_set)
                &&& seen.server is Some
                &&& (seen.server->0).running is None
                &&& (seen.server->0).idle is Ok
                &&& (seen.server->0).model is Some
                &&& seen.lock is Some
                &&& seen.lock->0 is Ok
                &&& seen.record is Some
                &&& seen.record->0 is Ok
            }
        },
{
}

/// A request that passes every gate is started: its profile is known, its dataset is empty or one of
/// those there are, a harness is there or none is needed, no benchmark runs, the server is idle with a
/// model loaded, the lock was taken and the run recorded. It is answered with the id of the run, and
/// the sentence names the profile, the model and the run.
pub proof fn law_every_gate_passed_is_a_start(
    req: BenchRequest,
    datasets: Seq<Seq<char>>,
    seen: Seen,
    profile: Profile,
    server: IdleSeen,
    model: String,
    id: i64,
)
    requires
        seen.profile == Some(profile),
        req.dataset@.len() == 0 || datasets.contains(req.dataset@),
        seen.harness is Some,
        seen.harness->0 is Ok || (!seen.harness_set && (profile == Profile::Quick || profile
            == Profile::Full)),
        seen.server == Some(server),
        server.running is None,
        server.idle is Ok,
        server.model == Some(model),
        seen.lock == Some(Ok::<(), String>(())),
        seen.record == Some(Ok::<i64, String>(id)),
    ensures
        start_step(req, datasets, seen) matches StepView::Answer(code, ok, run, text, under) && {
            &&& code == 202 && ok && run == Some(id)
            &&& under == req.under_load
            &&& holds(text, profile_name(profile)) && holds(text, model@) && holds(
                text,
                dec_int(id as int),
            )
        },
{
    if req.dataset@.len() > 0 {
        let k = choose|k: int| 0 <= k < datasets.len() && datasets[k] == req.dataset@;
        assert(datasets[k] == req.dataset@);
    }
    let last = if req.under_load {
        "It runs to the end WITH whatever else is on the server, and the scorecard records what that was."@
    } else {
        "It stops by itself if anyone else uses the server."@
    };
    let text = started_text(profile, model@, id as int, req.under_load);
    let (a, b, c, d) = ("benchmark `"@, "` started on "@, " (run "@, "). "@);
    let (p, m, n) = (profile_name(profile), model@, dec_int(id as int));
    assert(text =~= a + p + (b + m + c + n + d + last));
    assert(text =~= (a + p + b) + m + (c + n + d + last));
    assert(text =~= (a + p + b + m + c) + n + (d + last));
    crate::text::lemma_stands_between(a, p, b + m + c + n + d + last);
    crate::text::lemma_stands_between(a + p + b, m, c + n + d + last);
    crate::text::lemma_stands_between(a + p + b + m + c, n, d + last);
}

/// Each step is taken exactly where everything before it is settled, and each refusal is for the first
/// thing that fails: 400 for what was asked, 409 for the state of the machine, 500 for a run that could
/// not be recorded. A refusal says what it is for.
pub proof fn law_the_first_gate_that_fails_decides(
    req: BenchRequest,
    datasets: Seq<Seq<char>>,
    seen: Seen,
)
    ensures
        ({
            let step = start_step(req, datasets, seen);
            let asked = seen.profile is Some && (req.dataset@.len() == 0 || datasets.contains(
                req.dataset@,
            ));
            let needs = seen.harness_set || seen.profile == Some(Profile::Accuracy) || seen.profile
                == Some(Profile::DryRun);
            let unusable = seen.harness is Some && seen.harness->0 is Err && needs;
            let settled = asked && seen.harness is Some && !unusable;
            let looked = settled && seen.server is Some;
            let s = seen.server->0;
            let free = looked && s.running is None && s.idle is Ok && s.model is Some;
            let held = free && seen.lock is Some && seen.lock->0 is Ok;
            let lost = held && seen.record is Some && seen.record->0 is Err;
            &&& step is FindHarness <==> asked && seen.harness is None
            &&& step is LookAtServer <==> settled && seen.server is None
            &&& step is TakeLock <==> free && seen.lock is None
            &&& step is TakeLock ==> step->TakeLock_0 == seen.profile->0
            &&& step is Record <==> held && seen.record is None
            &&& step is Record ==> step->Record_0 == seen.profile->0 && step->Record_1 == (
            s.model->0)@
            &&& step is ReleaseLock <==> lost && !seen.released
            &&& step matches StepView::Answer(code, ok, id, text, under) ==> {
                &&& under == req.under_load
                &&& code == 400 <==> !asked
                &&& code == 409 <==> (asked && unusable) || (looked && !free) || (free && seen.lock is Some
                    && seen.lock->0 is Err)
                &&& code == 500 <==> lost && seen.released
                &&& code == 202 <==> held && seen.record is Some && seen.record->0 is Ok
                &&& code == 202 <==> ok
                &&& id == (if ok {
                    Some(seen.record->0->Ok_0)
                } else {
                    None
                })
                &&& seen.profile is None ==> holds(text, req.profile@)
                &&& seen.profile is Some && !asked ==> holds(text, req.dataset@) && holds(
                    text,
                    joined(datasets, ", "@),
                )
                &&& asked && unusable ==> text == (seen.harness->0->Err_0)@
                &&& looked && s.running is Some && s.running->0 is Some ==> holds(
                    text,
                    (s.running->0->0)@,
                )
                &&& looked && s.running is None && s.idle is Err ==> holds(text, (s.idle->Err_0)@)
                &&& looked && s.running is None && s.idle is Err && !s.serve_up && s.down_reason is Some
                    ==> holds(text, (s.down_reason->0)@)
                &&& free && seen.lock is Some && seen.lock->0 is Err ==> text == (
                seen.lock->0->Err_0)@
                &&& lost ==> holds(text, (seen.record->0->Err_0)@)
            }
            &&& step is Answer || step is FindHarness || step is LookAtServer || step is TakeLock || step
                is Record || step is ReleaseLock
        }),
{
    use_listed(datasets, req.dataset@);
    let e = Seq::<char>::empty();
    let (a, b) = ("unknown profile `"@, "`: use quick, full, accuracy or dry-run"@);
    crate::text::lemma_stands_between(a, req.profile@, b);
    let (a, b, c) = ("unknown dataset `"@, "`: use "@, joined(datasets, ", "@));
    assert(a + req.dataset@ + b + c =~= a + req.dataset@ + (b + c));
    assert(a + req.dataset@ + b + c =~= (a + req.dataset@ + b) + c + e);
    crate::text::lemma_stands_between(a, req.dataset@, b + c);
    crate::text::lemma_stands_between(a + req.dataset@ + b, c, e);
    if let Some(s) = seen.server {
        if let Some(Some(p)) = s.running {
            crate::text::lemma_stands_between(
                "a benchmark is already running ("@,
                p@,
                "): one at a time. `lss bench status` shows it, `lss bench cancel` stops it"@,
            );
        }
        if let Err(why) = s.idle {
            assert(why@ =~= e + why@ + e);
            crate::text::lemma_stands_between(e, why@, e);
            if let Some(d) = s.down_reason {
                assert(why@ + " - "@ + d@ =~= e + why@ + (" - "@ + d@));
                assert(why@ + " - "@ + d@ =~= (why@ + " - "@) + d@ + e);
                crate::text::lemma_stands_between(e, why@, " - "@ + d@);
                crate::text::lemma_stands_between(why@ + " - "@, d@, e);
            }
        }
    }
    if let Some(Err(w)) = seen.record {
        assert("cannot record the run: "@ + w@ =~= "cannot record the run: "@ + w@ + e);
        crate::text::lemma_stands_between("cannot record the run: "@, w@, e);
    }
}

proof fn use_listed(names: Seq<Seq<char>>, name: Seq<char>)
    ensures
        crate::collect::listed(names, name) == names.contains(name),
{
    if crate::collect::listed(names, name) {
        let k = choose|k: int| 0 <= k < names.len() && #[trigger] names[k] == name;
        assert(names.contains(names[k]));
    }
    if names.contains(name) {
        let k = choose|k: int| 0 <= k < names.len() && names[k] == name;
        assert(names[k] == name);
    }
}

/// The lock is asked for only once everything before it is settled, and nothing is recorded
/// without it.
pub proof fn law_lock_is_last(req: BenchRequest, datasets: Seq<Seq<char>>, seen: Seen)
    ensures
        start_step(req, datasets, seen) is TakeLock ==> seen.server is Some && (
        seen.server->0).running is None && (seen.server->0).idle is Ok && seen.lock is None,
        start_step(req, datasets, seen) is Record ==> seen.lock is Some && seen.lock->0 is Ok
            && seen.record is None,
        start_step(req, datasets, seen) is ReleaseLock ==> holds_lock(seen) && seen.record is Some
            && seen.record->0 is Err,
{
}

/// Whether the lock was taken and is still held.
pub open spec fn holds_lock(seen: Seen) -> bool {
    seen.lock is Some && seen.lock->0 is Ok && !seen.released
}

/// Whether what is known of a request was found out in turn: each thing when it was asked for, and
/// nothing else.
pub open spec fn found_in_turn(req: BenchRequest, datasets: Seq<Seq<char>>, seen: Seen) -> bool {
    let unrecorded = Seen { record: None, released: false, ..seen };
    let unlocked = Seen { lock: None, ..unrecorded };
    let unlooked = Seen { server: None, ..unlocked };
    let unfound = Seen { harness: None, ..unlooked };
    &&& seen.harness is Some ==> start_step(req, datasets, unfound) is FindHarness
    &&& seen.server is Some ==> start_step(req, datasets, unlooked) is LookAtServer
    &&& seen.lock is Some ==> start_step(req, datasets, unlocked) is TakeLock
    &&& seen.record is Some ==> start_step(req, datasets, unrecorded) is Record
    &&& seen.released ==> start_step(req, datasets, Seen { released: false, ..seen }) is ReleaseLock
}

/// A request that is followed step by step is always found out in turn: it is so at first, and each
/// step that is asked for keeps it so, whatever it comes to.
pub proof fn law_steps_are_taken_in_turn(
    req: BenchRequest,
    datasets: Seq<Seq<char>>,
    seen: Seen,
    harness: Result<String, String>,
    server: IdleSeen,
    lock: Result<(), String>,
    record: Result<i64, String>,
)
    ensures
        seen.harness is None && seen.server is None && seen.lock is None && seen.record is None
            && !seen.released ==> found_in_turn(req, datasets, seen),
        found_in_turn(req, datasets, seen) ==> match start_step(req, datasets, seen) {
            StepView::FindHarness => found_in_turn(
                req,
                datasets,
                Seen { harness: Some(harness), ..seen },
            ),
            StepView::LookAtServer => found_in_turn(
                req,
                datasets,
                Seen { server: Some(server), ..seen },
            ),
            StepView::TakeLock(_) => found_in_turn(req, datasets, Seen { lock: Some(lock), ..seen }),
            StepView::Record(_, _) => found_in_turn(
                req,
                datasets,
                Seen { record: Some(record), ..seen },
            ),
            StepView::ReleaseLock => found_in_turn(req, datasets, Seen { released: true, ..seen }),
            StepView::Answer(..) => true,
        },
{
}

/// A refusal leaves nothing behind: no lock of its own, and no recorded run. A start holds the lock,
/// and its run is recorded under the id that is answered.
pub proof fn law_a_refusal_leaves_nothing_behind(
    req: BenchRequest,
    datasets: Seq<Seq<char>>,
    seen: Seen,
)
    requires
        found_in_turn(req, datasets, seen),
    ensures
        start_step(req, datasets, seen) matches StepView::Answer(code, ok, id, _, _) ==> {
            &&& ok == (code == 202)
            &&& !ok ==> !holds_lock(seen) && !(seen.record is Some && seen.record->0 is Ok) && id is None
            &&& ok ==> holds_lock(seen) && seen.record is Some && seen.record->0 is Ok && id == Some(
                seen.record->0->Ok_0,
            )
        },
{
}

/// Whether a character is a control character (Unicode category `Cc`).
pub open spec fn control(c: char) -> bool {
    c <= '\u{1f}' || '\u{7f}' <= c <= '\u{9f}'
}

/// A note without its control characters, cut.
pub open spec fn note_kept(note: Seq<char>) -> Seq<char> {
    head(note.filter(|c: char| !control(c)), 200)
}

/// A note without its control characters, cut.
pub fn note_of(note: &str) -> (r: String)
    ensures
        r@ == note_kept(note@),
{
    let v = chars_of(note);
    let ghost p = |c: char| !control(c);
    let mut out = String::new();
    let mut i: usize = 0;
    proof {
        reveal(Seq::filter);
    }
    while i < v.len()
        invariant
            i <= v@.len(),
            p == (|c: char| !control(c)),
            out@ == v@.take(i as int).filter(p),
        decreases v@.len() - i,
    {
        let c = v[i];
        proof {
            reveal(Seq::filter);
            assert(v@.take(i + 1).drop_last() =~= v@.take(i as int));
            assert(v@.take(i + 1).last() == c);
        }
        if !(c <= '\u{1f}' || ('\u{7f}' <= c && c <= '\u{9f}')) {
            out.push(c);
        }
        i += 1;
    }
    assert(v@.take(v@.len() as int) =~= v@);
    take(out.as_str(), 200)
}

/// A note holds no control character and two hundred characters at most; a short one that has none is
/// kept as it is.
pub proof fn law_a_note_is_one_short_line(note: Seq<char>)
    ensures
        note_kept(note).len() <= 200,
        forall|i: int|
            0 <= i < note_kept(note).len() ==> !(#[trigger] note_kept(note)[i] <= '\u{1f}' || '\u{7f}'
                <= note_kept(note)[i] <= '\u{9f}'),
        note.len() <= 200 && (forall|i: int|
            0 <= i < note.len() ==> !(#[trigger] note[i] <= '\u{1f}' || '\u{7f}' <= note[i]
                <= '\u{9f}')) ==> note_kept(note) == note,
{
    let p = |c: char| !control(c);
    note.filter_lemma(p);
    let f = note.filter(p);
    assert forall|i: int| 0 <= i < note_kept(note).len() implies !(#[trigger] note_kept(note)[i]
        <= '\u{1f}' || '\u{7f}' <= note_kept(note)[i] <= '\u{9f}') by {
        assert(note_kept(note)[i] == f[i]);
        assert(p(f[i]));
    }
    if forall|i: int|
        0 <= i < note.len() ==> !(#[trigger] note[i] <= '\u{1f}' || '\u{7f}' <= note[i] <= '\u{9f}') {
        assert forall|i: int| 0 <= i < note.len() implies p(#[trigger] note[i]) by {
            assert(!(note[i] <= '\u{1f}' || '\u{7f}' <= note[i] <= '\u{9f}'));
        }
        lemma_filter_keeps_all(note, p);
    }
}

proof fn lemma_filter_keeps_all(s: Seq<char>, p: spec_fn(char) -> bool)
    requires
        forall|i: int| 0 <= i < s.len() ==> p(#[trigger] s[i]),
    ensures
        s.filter(p) == s,
    decreases s.len(),
{
    reveal(Seq::filter);
    if s.len() > 0 {
        assert forall|i: int| 0 <= i < s.drop_last().len() implies p(#[trigger] s.drop_last()[i]) by {
            assert(s.drop_last()[i] == s[i]);
        }
        lemma_filter_keeps_all(s.drop_last(), p);
        assert(p(s[s.len() - 1]));
        assert(s =~= s.drop_last().push(s.last()));
    }
}

/// What carries a run's load.
pub open spec fn load_route(has_harness: bool, chat_base: Seq<char>, engine_url: Seq<char>) -> Seq<
    char,
> {
    if !has_harness {
        "built-in mini bench (no external harness configured): lss's own requests to "@ + chat_base
            + "/v1/chat/completions with X-LSS-Bench: 1"@
    } else {
        "engine direct ("@ + engine_url
            + "): the harness cannot send X-LSS-Bench, so it bypasses the gateway"@
    }
}

/// The way of a run's small checks.
pub open spec fn check_route(gate_url: Option<Seq<char>>) -> Seq<char> {
    match gate_url {
        Some(u) => "sanity checks and the needle go through the gateway's trusted port ("@ + u
            + ") with X-LSS-Bench: 1"@,
        None => "sanity checks and the needle go straight to the engine (no gateway configured), with X-LSS-Bench: 1"@,
    }
}

/// Where a run's load goes: what carries it, then the way of the small checks. Only what is there is
/// named.
pub fn target_of(
    has_harness: bool,
    chat_base: &str,
    engine_url: &str,
    gate_url: Option<&str>,
) -> (r: String)
    ensures
        r@ == load_route(has_harness, chat_base@, engine_url@) + " · "@ + check_route(
            crate::collect::opt_str(gate_url),
        ),
{
    let mut s: String;
    if !has_harness {
        s = "built-in mini bench (no external harness configured): lss's own requests to ".to_owned();
        s.append(chat_base);
        s.append("/v1/chat/completions with X-LSS-Bench: 1");
    } else {
        s = "engine direct (".to_owned();
        s.append(engine_url);
        s.append("): the harness cannot send X-LSS-Bench, so it bypasses the gateway");
    }
    s.append(" · ");
    match gate_url {
        Some(u) => {
            let mut t = "sanity checks and the needle go through the gateway's trusted port (".to_owned();
            t.append(u);
            t.append(") with X-LSS-Bench: 1");
            s.append(t.as_str());
        },
        None => {
            s.append(
                "sanity checks and the needle go straight to the engine (no gateway configured), with X-LSS-Bench: 1",
            );
        },
    }
    s
}

// ----------------------------------------------------------- the shared state

/// What the poll loop and the listeners share about the benchmark.
pub struct BenchState {
    pub active: bool,
    pub cancel: bool,
    /// counts every start and end
    pub generation: u64,
    /// when the benchmark's own requests were sent
    pub own_requests: Vec<i64>,
    pub state: String,
    pub profile: Option<String>,
    pub started_at: Option<i64>,
    pub step: Option<String>,
    pub step_index: u32,
    pub steps: u32,
}

impl Default for BenchState {
    fn default() -> (r: BenchState)
        ensures
            !r.active && !r.cancel,
            r.generation == 0,
            r.own_requests@.len() == 0,
            r.state@ == "idle"@,
            r.profile is None && r.started_at is None && r.step is None,
            r.step_index == 0 && r.steps == 0,
    {
        BenchState::new()
    }
}

impl BenchState {
    /// No benchmark has run.
    pub fn new() -> (r: BenchState)
        ensures
            !r.active && !r.cancel,
            r.generation == 0,
            r.own_requests@.len() == 0,
            r.state@ == "idle"@,
            r.profile is None && r.started_at is None && r.step is None,
            r.step_index == 0 && r.steps == 0,
    {
        BenchState {
            active: false,
            cancel: false,
            generation: 0,
            own_requests: Vec::new(),
            state: "idle".to_owned(),
            profile: None,
            started_at: None,
            step: None,
            step_index: 0,
            steps: 0,
        }
    }

    /// A run begins.
    pub fn begin(&mut self, profile: Profile, now: i64, steps: u32)
        requires
            old(self).generation < u64::MAX,
        ensures
            final(self).active && !final(self).cancel,
            final(self).generation == old(self).generation + 1,
            final(self).state@ == "running"@,
            opt_view(final(self).profile) == Some(profile_name(profile)),
            final(self).started_at == Some(now),
            final(self).step is None,
            final(self).step_index == 0 && final(self).steps == steps,
            final(self).own_requests == old(self).own_requests,
    {
        self.active = true;
        self.cancel = false;
        self.generation = self.generation + 1;
        self.state = "running".to_owned();
        self.profile = Some(profile.name());
        self.started_at = Some(now);
        self.step = None;
        self.step_index = 0;
        self.steps = steps;
    }

    /// A request was answered: a run begins where one was started, and nothing changes where it was
    /// refused.
    pub fn answered(&mut self, answer: &BenchStarted, profile: Profile, now: i64, steps: u32)
        requires
            old(self).generation < u64::MAX,
        ensures
            !answer.ok ==> *final(self) == *old(self),
            answer.ok ==> {
                &&& final(self).active && !final(self).cancel
                &&& final(self).generation == old(self).generation + 1
                &&& final(self).state@ == "running"@
                &&& opt_view(final(self).profile) == Some(profile_name(profile))
                &&& final(self).started_at == Some(now)
                &&& final(self).step is None
                &&& final(self).step_index == 0 && final(self).steps == steps
                &&& final(self).own_requests == old(self).own_requests
            },
    {
        if answer.ok {
            self.begin(profile, now, steps);
        }
    }

    /// A run has come to its step `index` (the first is 0).
    pub fn at_step(&mut self, index: u32, name: String)
        requires
            index < u32::MAX,
        ensures
            *final(self) == (BenchState {
                step: Some(name),
                step_index: (index + 1) as u32,
                ..*old(self)
            }),
    {
        self.step = Some(name);
        self.step_index = index + 1;
    }

    /// A run has ended. Whether it is shown as the last run: a look at the harness's help is, only
    /// where it failed.
    pub fn end(&mut self, profile: Profile, complete: bool) -> (r: bool)
        requires
            old(self).generation < u64::MAX,
        ensures
            r == (profile != Profile::DryRun || !complete),
            !final(self).active && !final(self).cancel,
            final(self).generation == old(self).generation + 1,
            final(self).state@ == "idle"@,
            final(self).profile is None && final(self).started_at is None && final(self).step is None,
            final(self).step_index == old(self).step_index && final(self).steps == old(self).steps,
            final(self).own_requests == old(self).own_requests,
    {
        self.active = false;
        self.cancel = false;
        self.generation = self.generation + 1;
        self.state = "idle".to_owned();
        self.profile = None;
        self.started_at = None;
        self.step = None;
        profile != Profile::DryRun || !complete
    }

    /// Somebody asks to stop the run.
    pub fn request_cancel(&mut self) -> (r: (u16, BenchStarted))
        ensures
            r.0 == (if old(self).active {
                202u16
            } else {
                409u16
            }),
            r.1.ok == old(self).active,
            r.1.run_id is None && !r.1.under_load,
            r.1.message@ == (if old(self).active {
                "stopping the benchmark: the harness is being killed"@
            } else {
                "no benchmark is running"@
            }),
            *final(self) == (BenchState {
                cancel: old(self).cancel || old(self).active,
                ..*old(self)
            }),
    {
        let ok = self.active;
        let message = if ok {
            self.cancel = true;
            "stopping the benchmark: the harness is being killed".to_owned()
        } else {
            "no benchmark is running".to_owned()
        };
        (
            if ok {
                202
            } else {
                409
            },
            BenchStarted { ok, run_id: None, message, under_load: false },
        )
    }

    /// Forgets the requests that were sent before `from`.
    pub fn forget_requests(&mut self, from: i64)
        ensures
            final(self).own_requests@ == old(self).own_requests@.filter(|t: i64| t >= from),
            *final(self) == (BenchState { own_requests: final(self).own_requests, ..*old(self) }),
    {
        let ghost p = |t: i64| t >= from;
        let mut kept: Vec<i64> = Vec::new();
        let mut i: usize = 0;
        proof {
            reveal(Seq::filter);
        }
        while i < self.own_requests.len()
            invariant
                i <= self.own_requests@.len(),
                p == (|t: i64| t >= from),
                kept@ == self.own_requests@.take(i as int).filter(p),
            decreases self.own_requests@.len() - i,
        {
            proof {
                reveal(Seq::filter);
                assert(self.own_requests@.take(i + 1).drop_last() =~= self.own_requests@.take(
                    i as int,
                ));
            }
            let t: i64 = self.own_requests[i];
            if t >= from {
                kept.push(t);
            }
            i += 1;
        }
        assert(self.own_requests@.take(self.own_requests@.len() as int) =~= self.own_requests@);
        self.own_requests = kept;
    }
}

// ----------------------------------------------------- raw result directories

/// The run that a directory is of: the number that its name starts with, up to the first hyphen.
pub open spec fn dir_run(name: Seq<char>) -> Option<int> {
    match parse_int(split_on(name, '-')[0], true) {
        Some(n) if i64::MIN <= n <= i64::MAX => Some(n),
        _ => None,
    }
}

/// The runs that directories are of.
pub open spec fn dir_runs(names: Seq<Seq<char>>) -> Seq<Option<int>> {
    names.map_values(|n: Seq<char>| dir_run(n))
}

/// Whether directory `j` comes before directory `i` in the order newest first.
pub open spec fn newer(runs: Seq<Option<int>>, j: int, i: int) -> bool {
    runs[j] is Some && runs[i] is Some && (runs[j]->0 > runs[i]->0 || (runs[j]->0 == runs[i]->0 && j
        < i))
}

/// How many of the first `n` directories come before directory `i`.
pub open spec fn newer_count(runs: Seq<Option<int>>, i: int, n: nat) -> nat
    decreases n,
{
    if n == 0 {
        0
    } else {
        newer_count(runs, i, (n - 1) as nat) + (if newer(runs, n - 1, i) {
            1nat
        } else {
            0
        })
    }
}

/// How many runs are kept: at least one.
pub open spec fn runs_kept(keep: u32) -> nat {
    if keep == 0 {
        1
    } else {
        keep as nat
    }
}

/// Whether directory `i` goes: it is a run's, and as many newer ones are there as are kept.
pub open spec fn goes(runs: Seq<Option<int>>, i: int, keep: u32) -> bool {
    runs[i] is Some && newer_count(runs, i, runs.len()) >= runs_kept(keep)
}

fn run_of(name: &str) -> (r: Option<i64>)
    ensures
        (match r {
            Some(n) => Some(n as int),
            None => None::<int>,
        }) == dir_run(name@),
{
    let parts = split(name, '-');
    assert(views(parts@).len() == parts@.len());
    assert(split_on(name@, '-').len() > 0);
    assert(views(parts@)[0] == parts@[0]@);
    parse_i64(parts[0].as_str())
}

/// Which of these directories are removed, so that the newest `keep` runs stay (at least one).
/// Directories that are no run's stay.
pub fn prune_raw(names: &Vec<String>, keep: u32) -> (r: Vec<usize>)
    ensures
        forall|k: int| 0 <= k < r@.len() ==> (#[trigger] r@[k]) < names@.len(),
        forall|j: int, k: int| 0 <= j < k < r@.len() ==> r@[j] < r@[k],
        forall|i: int|
            0 <= i < names@.len() ==> r@.contains(i as usize) == #[trigger] goes(
                dir_runs(views(names@)),
                i,
                keep,
            ),
{
    let mut ids: Vec<Option<i64>> = Vec::new();
    let ghost runs = dir_runs(views(names@));
    let mut i: usize = 0;
    while i < names.len()
        invariant
            i <= names@.len(),
            runs == dir_runs(views(names@)),
            ids@.len() == i,
            forall|j: int|
                0 <= j < i ==> runs[j] == (match #[trigger] ids@[j] {
                    Some(n) => Some(n as int),
                    None => None::<int>,
                }),
        decreases names@.len() - i,
    {
        let id = run_of(names[i].as_str());
        assert(runs[i as int] == dir_run(names@[i as int]@));
        ids.push(id);
        i += 1;
    }
    let kept: usize = if keep == 0 {
        1
    } else {
        keep as usize
    };
    let mut out: Vec<usize> = Vec::new();
    let mut i: usize = 0;
    while i < ids.len()
        invariant
            i <= ids@.len(),
            ids@.len() == runs.len(),
            runs.len() == names@.len(),
            kept == runs_kept(keep),
            forall|j: int|
                0 <= j < ids@.len() ==> runs[j] == (match #[trigger] ids@[j] {
                    Some(n) => Some(n as int),
                    None => None::<int>,
                }),
            forall|k: int| 0 <= k < out@.len() ==> (#[trigger] out@[k]) < i,
            forall|j: int, k: int| 0 <= j < k < out@.len() ==> out@[j] < out@[k],
            forall|j: int|
                0 <= j < i ==> out@.contains(j as usize) == #[trigger] goes(runs, j, keep),
        decreases ids@.len() - i,
    {
        let ghost before = out@;
        if let Some(own) = ids[i] {
            let mut count: usize = 0;
            let mut j: usize = 0;
            while j < ids.len()
                invariant
                    i < ids@.len(),
                    j <= ids@.len(),
                    ids@.len() == runs.len(),
                    count <= j,
                    runs[i as int] == Some(own as int),
                    forall|j: int|
                        0 <= j < ids@.len() ==> runs[j] == (match #[trigger] ids@[j] {
                            Some(n) => Some(n as int),
                            None => None::<int>,
                        }),
                    count == newer_count(runs, i as int, j as nat),
                decreases ids@.len() - j,
            {
                if let Some(other) = ids[j] {
                    if other > own || (other == own && j < i) {
                        count += 1;
                    }
                }
                j += 1;
            }
            if count >= kept {
                out.push(i);
            }
        }
        proof {
            assert forall|j: int| 0 <= j < i + 1 implies out@.contains(j as usize) == #[trigger] goes(
                runs,
                j,
                keep,
            ) by {
                if j < i {
                    assert(before.contains(j as usize) == goes(runs, j, keep));
                    if before.contains(j as usize) {
                        let k = choose|k: int| 0 <= k < before.len() && before[k] == j as usize;
                        assert(out@[k] == j as usize);
                    }
                    if out@.contains(j as usize) {
                        let k = choose|k: int| 0 <= k < out@.len() && out@[k] == j as usize;
                        assert(before[k] == j as usize);
                    }
                } else if goes(runs, j, keep) {
                    assert(out@.last() == i);
                } else if out@.contains(j as usize) {
                    let k = choose|k: int| 0 <= k < out@.len() && out@[k] == j as usize;
                    assert(before[k] == j as usize);
                }
            }
        }
        i += 1;
    }
    out
}

proof fn lemma_newer_count_mono(runs: Seq<Option<int>>, i: int, j: int, n: nat)
    requires
        0 <= i < runs.len(),
        0 <= j < runs.len(),
        n <= runs.len(),
        newer(runs, j, i),
    ensures
        newer_count(runs, j, n) <= newer_count(runs, i, n),
    decreases n,
{
    if n > 0 {
        lemma_newer_count_mono(runs, i, j, (n - 1) as nat);
    }
}

/// A run's directory never goes while that of an older run stays.
pub proof fn law_older_runs_go_first(runs: Seq<Option<int>>, i: int, j: int, keep: u32)
    requires
        0 <= i < runs.len(),
        0 <= j < runs.len(),
        newer(runs, j, i),
        goes(runs, j, keep),
    ensures
        goes(runs, i, keep),
{
    lemma_newer_count_mono(runs, i, j, runs.len());
}

proof fn lemma_newer_counted(runs: Seq<Option<int>>, i: int, n: nat)
    requires
        0 <= i < runs.len(),
        n <= runs.len(),
    ensures
        ({
            let s = Set::new(
                |j: int|
                    0 <= j < n && runs[j] is Some && runs[i] is Some && (runs[j]->0 > runs[i]->0 || (
                    runs[j]->0 == runs[i]->0 && j < i)),
            );
            s.finite() && newer_count(runs, i, n) == s.len()
        }),
    decreases n,
{
    let s = Set::new(
        |j: int|
            0 <= j < n && runs[j] is Some && runs[i] is Some && (runs[j]->0 > runs[i]->0 || (runs[j]->0
                == runs[i]->0 && j < i)),
    );
    if n == 0 {
        assert(s =~= Set::empty());
    } else {
        lemma_newer_counted(runs, i, (n - 1) as nat);
        let m = (n - 1) as nat;
        let before = Set::new(
            |j: int|
                0 <= j < m && runs[j] is Some && runs[i] is Some && (runs[j]->0 > runs[i]->0 || (
                runs[j]->0 == runs[i]->0 && j < i)),
        );
        if newer(runs, n - 1, i) {
            assert(s =~= before.insert(n - 1));
        } else {
            assert(s =~= before);
        }
    }
}

/// A directory goes exactly where it is a run's, and of as many runs as are kept (one at least) each
/// has a higher number, or the same one and stands before it.
pub proof fn law_the_newest_runs_are_kept(runs: Seq<Option<int>>, i: int, keep: u32)
    requires
        0 <= i < runs.len(),
    ensures
        goes(runs, i, keep) <==> runs[i] is Some && Set::new(
            |j: int|
                0 <= j < runs.len() && runs[j] is Some && runs[i] is Some && (runs[j]->0 > runs[i]->0 || (
                runs[j]->0 == runs[i]->0 && j < i)),
        ).len() >= (if keep >= 1 {
            keep as int
        } else {
            1
        }),
{
    lemma_newer_counted(runs, i, runs.len());
}

/// The name of a run's directory is read as that run: what is kept and what goes is decided by the
/// number that the run was recorded under.
pub proof fn law_a_run_directory_names_its_run(id: i64, profile: Profile, model: Seq<char>)
    requires
        id >= 0,
    ensures
        dir_run(
            dec_int(id as int) + "-"@ + profile_name(profile) + "-"@ + model_dir_text(model),
        ) == Some(id as int),
{
    let number = dec_int(id as int);
    crate::text::law_decimal_reads_back(id as nat);
    reveal_strlit("-");
    let name = number + "-"@ + profile_name(profile) + "-"@ + model_dir_text(model);
    assert forall|i: int| 0 <= i < number.len() implies name[i] != '-' by {
        assert(name[i] == number[i]);
        assert(crate::text::is_digit(number[i]));
    }
    assert(name[number.len() as int] == '-');
    crate::text::lemma_first_index_is(name, '-', number.len() as int);
    assert(name.take(number.len() as int) =~= number);
    assert(split_on(name, '-')[0] == number);
}

proof fn lemma_none_newer(runs: Seq<Option<int>>, i: int, n: nat)
    requires
        n <= runs.len(),
        forall|j: int| 0 <= j < runs.len() ==> !#[trigger] newer(runs, j, i),
    ensures
        newer_count(runs, i, n) == 0,
    decreases n,
{
    if n > 0 {
        lemma_none_newer(runs, i, (n - 1) as nat);
    }
}

/// The newest run's directory stays, however few are to be kept.
pub proof fn law_newest_run_stays(runs: Seq<Option<int>>, i: int, keep: u32)
    requires
        0 <= i < runs.len(),
        forall|j: int| 0 <= j < runs.len() ==> !#[trigger] newer(runs, j, i),
    ensures
        !goes(runs, i, keep),
{
    lemma_none_newer(runs, i, runs.len());
}

// -------------------------------------------------------------- the safety watch

/// How a step ends.
pub enum StepEnd {
    Done,
    Aborted(String),
    Timeout,
    Failed(String),
}

/// How a step ends, as values.
pub enum EndView {
    Done,
    Aborted(Seq<char>),
    Timeout,
    Failed(Seq<char>),
}

/// How a step ends, as values.
pub open spec fn end_view(e: StepEnd) -> EndView {
    match e {
        StepEnd::Done => EndView::Done,
        StepEnd::Aborted(w) => EndView::Aborted(w@),
        StepEnd::Timeout => EndView::Timeout,
        StepEnd::Failed(w) => EndView::Failed(w@),
    }
}

/// How a step is stopped, as values.
pub open spec fn stop_view(e: Option<StepEnd>) -> Option<EndView> {
    match e {
        Some(e) => Some(end_view(e)),
        None => None,
    }
}

/// What stops a step before the server is looked at: the operator, then the clock.
pub fn stop_at_once(cancel: bool, late: bool) -> (r: Option<StepEnd>)
    ensures
        stop_view(r) == (if cancel {
            Some(EndView::Aborted("cancelled by the operator"@))
        } else if late {
            Some(EndView::Timeout)
        } else {
            None
        }),
{
    if cancel {
        Some(StepEnd::Aborted("cancelled by the operator".to_owned()))
    } else if late {
        Some(StepEnd::Timeout)
    } else {
        None
    }
}

/// What stops a step once the server was looked at: somebody else's traffic, unless the run is
/// meant to measure with it.
pub fn must_stop(under_load: bool, foreign: Option<String>) -> (r: Option<StepEnd>)
    ensures
        stop_view(r) == (match foreign {
            Some(why) if !under_load => Some(EndView::Aborted("aborted: "@ + why@)),
            _ => None,
        }),
{
    if under_load {
        return None;
    }
    match foreign {
        Some(why) => {
            let mut s = "aborted: ".to_owned();
            s.append(why.as_str());
            Some(StepEnd::Aborted(s))
        },
        None => None,
    }
}

/// Whether the wait after a step is over: the engine is quiet, or it never will be, or it has been
/// waited for long enough.
pub fn settle(under_load: bool, quiet: bool, late: bool) -> (r: bool)
    ensures
        r == (under_load || quiet || late),
{
    under_load || quiet || late
}

/// How long a step's end is waited for, in milliseconds: thirty polls, a minute at most.
pub fn settle_ms(poll_ms: u64) -> (r: u64)
    requires
        poll_ms * 30 <= u64::MAX,
    ensures
        r == (if poll_ms * 30 < 60_000 {
            poll_ms * 30
        } else {
            60_000
        }),
{
    let w: u64 = poll_ms * 30;
    if w < 60_000 {
        w
    } else {
        60_000
    }
}

/// A user of the gateway, as its health page names them.
pub struct GateUser {
    pub lane: String,
    pub user: String,
    pub inflight: u64,
    /// when the gateway first saw the address
    pub first_seen: i64,
}

/// Whether a user is the benchmark itself.
pub open spec fn is_bench_user(u: GateUser, bench: Seq<char>) -> bool {
    u.lane@ == "trusted"@ && u.user@ == bench
}

/// The requests in flight of everybody but the benchmark.
pub open spec fn others_inflight(users: Seq<GateUser>, bench: Seq<char>) -> nat
    decreases users.len(),
{
    if users.len() == 0 {
        0
    } else {
        others_inflight(users.drop_last(), bench) + (if is_bench_user(users.last(), bench) {
            0
        } else {
            users.last().inflight as nat
        })
    }
}

proof fn lemma_others_grow(users: Seq<GateUser>, bench: Seq<char>, n: int)
    requires
        0 <= n <= users.len(),
    ensures
        others_inflight(users.take(n), bench) <= others_inflight(users, bench),
    decreases users.len() - n,
{
    if n < users.len() {
        lemma_others_grow(users, bench, n + 1);
        assert(users.take(n + 1).drop_last() =~= users.take(n));
    } else {
        assert(users.take(n) =~= users);
    }
}

/// The requests in flight of everybody but the benchmark.
pub fn other_users_inflight(users: &Vec<GateUser>, bench: &str) -> (r: u64)
    requires
        others_inflight(users@, bench@) <= u64::MAX,
    ensures
        r == others_inflight(users@, bench@),
{
    let mut sum: u64 = 0;
    let mut i: usize = 0;
    while i < users.len()
        invariant
            i <= users@.len(),
            sum == others_inflight(users@.take(i as int), bench@),
            others_inflight(users@, bench@) <= u64::MAX,
        decreases users@.len() - i,
    {
        proof {
            assert(users@.take(i + 1).drop_last() =~= users@.take(i as int));
            lemma_others_grow(users@, bench@, i + 1);
        }
        let own = same(users[i].lane.as_str(), "trusted") && same(users[i].user.as_str(), bench);
        if !own {
            sum = sum + users[i].inflight;
        }
        i += 1;
    }
    assert(users@.take(users@.len() as int) =~= users@);
    sum
}

/// The requests of others are added up user by user: a user of the trusted lane under the benchmark's
/// own name adds none, and anybody else adds what they have in flight.
pub proof fn law_everybody_else_is_counted(users: Seq<GateUser>, u: GateUser, bench: Seq<char>)
    ensures
        others_inflight(Seq::empty(), bench) == 0,
        others_inflight(users.push(u), bench) == others_inflight(users, bench) + (if u.lane@
            == "trusted"@ && u.user@ == bench {
            0
        } else {
            u.inflight as int
        }),
{
    assert(users.push(u).drop_last() =~= users);
}

/// What the engine's answers to the first two requests mean. `refused` is the hint for an answer
/// that refuses the key.
pub enum Preflight {
    Refused(String),
    AskChat,
    Pass,
}

/// After `GET /v1/models`: a refused key stops the run, an open page asks for a chat too, and any
/// other answer is not a matter of the key.
pub fn preflight(status: Option<u16>, refused: Option<String>) -> (r: Preflight)
    ensures
        match refused {
            Some(h) => r == Preflight::Refused(h),
            None => r == (if status == Some(200u16) {
                Preflight::AskChat
            } else {
                Preflight::Pass
            }),
        },
{
    match refused {
        Some(h) => Preflight::Refused(h),
        None => match status {
            Some(c) => if c == 200 {
                Preflight::AskChat
            } else {
                Preflight::Pass
            },
            None => Preflight::Pass,
        },
    }
}

// ------------------------------------------------------ the run's own requests

/// Whether a request that came back with no status did so at its own time limit, or within a second
/// of it. Both are in milliseconds.
pub fn timed_out(elapsed_ms: u64, timeout_ms: u64) -> (r: bool)
    ensures
        r == (elapsed_ms + 1000 >= timeout_ms),
{
    elapsed_ms as u128 + 1000 >= timeout_ms as u128
}

/// Whether a request was given up by the client and still runs on the engine.
pub open spec fn is_abandoned(code: u16, gave_up: bool, elapsed_ms: u64, timeout_ms: u64) -> bool {
    code == 0 && gave_up && elapsed_ms + 1000 >= timeout_ms
}

/// Whether a request was given up by the client and still runs on the engine: it has no status, the
/// client's own clock ended it, and did so at the request's limit and not at that of the connection.
pub fn abandoned(code: u16, gave_up: bool, elapsed_ms: u64, timeout_ms: u64) -> (r: bool)
    ensures
        r == is_abandoned(code, gave_up, elapsed_ms, timeout_ms),
{
    code == 0 && gave_up && timed_out(elapsed_ms, timeout_ms)
}

/// What one cause of a transport error is.
#[derive(Clone, Copy, PartialEq, Eq, Structural, Debug)]
pub enum Cause {
    TimedOut,
    Other,
}

/// Whether the client's own clock ended a request: one of the causes of its error is a time-out.
pub fn client_timed_out(causes: &Vec<Cause>) -> (r: bool)
    ensures
        r == causes@.contains(Cause::TimedOut),
{
    let mut i: usize = 0;
    while i < causes.len()
        invariant
            i <= causes@.len(),
            forall|j: int| 0 <= j < i ==> causes@[j] != Cause::TimedOut,
        decreases causes@.len() - i,
    {
        if causes[i] == Cause::TimedOut {
            return true;
        }
        i += 1;
    }
    false
}

/// One of several requests that were sent at once, when it has come back.
#[derive(Clone, Copy, PartialEq, Eq, Structural, Debug)]
pub struct Returned {
    pub code: u16,
    pub gave_up: bool,
    pub elapsed_ms: u64,
}

/// How many of the requests still run on the engine.
pub open spec fn abandoned_among(rs: Seq<Returned>, timeout_ms: u64) -> nat
    decreases rs.len(),
{
    if rs.len() == 0 {
        0
    } else {
        abandoned_among(rs.drop_last(), timeout_ms) + (if is_abandoned(
            rs.last().code,
            rs.last().gave_up,
            rs.last().elapsed_ms,
            timeout_ms,
        ) {
            1nat
        } else {
            0
        })
    }
}

/// How many of the requests still run on the engine.
pub fn count_abandoned(rs: &Vec<Returned>, timeout_ms: u64) -> (r: u64)
    ensures
        r == abandoned_among(rs@, timeout_ms),
        r <= rs@.len(),
{
    let mut n: u64 = 0;
    let mut i: usize = 0;
    while i < rs.len()
        invariant
            i <= rs@.len(),
            n <= i,
            n == abandoned_among(rs@.take(i as int), timeout_ms),
        decreases rs@.len() - i,
    {
        assert(rs@.take(i + 1).drop_last() =~= rs@.take(i as int));
        let x = rs[i];
        if abandoned(x.code, x.gave_up, x.elapsed_ms, timeout_ms) {
            n += 1;
        }
        i += 1;
    }
    assert(rs@.take(rs@.len() as int) =~= rs@);
    n
}

/// A request that came back counts as still running exactly where it has no status, the client's own
/// clock ended it, and it had run for its whole limit but a second at most.
pub proof fn law_only_what_ran_out_its_limit_is_abandoned(
    rs: Seq<Returned>,
    r: Returned,
    timeout_ms: u64,
)
    ensures
        abandoned_among(Seq::empty(), timeout_ms) == 0,
        abandoned_among(rs.push(r), timeout_ms) == abandoned_among(rs, timeout_ms) + (if r.code == 0
            && r.gave_up && timeout_ms - r.elapsed_ms <= 1000 {
            1int
        } else {
            0
        }),
{
    assert(rs.push(r).drop_last() =~= rs);
}

/// The benchmark's own requests as the watch must count them: in flight, just finished (for one
/// poll: a response that races the next reading is not a stranger's), and abandoned (given up by the
/// client, still running on the engine). Instants are milliseconds of one clock.
#[derive(Clone, Copy, PartialEq, Eq, Structural, Debug)]
pub struct OwnLoad {
    pub inflight: u64,
    pub grace_until: u64,
    pub abandoned: u64,
}

impl OwnLoad {
    /// Nothing of the benchmark's runs.
    pub fn new(now: u64) -> (r: OwnLoad)
        ensures
            r == (OwnLoad { inflight: 0, grace_until: now, abandoned: 0 }),
    {
        OwnLoad { inflight: 0, grace_until: now, abandoned: 0 }
    }

    /// `n` requests are sent.
    pub fn start(&mut self, n: u64)
        ensures
            *final(self) == (OwnLoad { inflight: n, ..*old(self) }),
    {
        self.inflight = n;
    }

    /// The requests have returned; `abandoned` of them were given up and still run. For one poll more
    /// one request counts as the benchmark's.
    pub fn finish(&mut self, now: u64, poll: u64, abandoned: u64)
        requires
            now + poll <= u64::MAX,
            old(self).abandoned + abandoned <= u64::MAX,
        ensures
            *final(self) == (OwnLoad {
                inflight: 0,
                grace_until: (now + poll) as u64,
                abandoned: (old(self).abandoned + abandoned) as u64,
            }),
    {
        self.inflight = 0;
        self.grace_until = now + poll;
        self.abandoned = self.abandoned + abandoned;
    }

    /// The requests that are in flight, or one for those that have just returned.
    pub open spec fn live(self, now: u64) -> nat {
        if self.inflight > 0 {
            self.inflight as nat
        } else if now < self.grace_until {
            1
        } else {
            0
        }
    }

    /// How many requests on the engine are the benchmark's own. `engine_running` is what the engine
    /// says it runs, to the nearest whole number with halves down; once that is no more than the
    /// benchmark has in flight, the abandoned requests are over.
    pub fn count(&mut self, now: u64, engine_running: Option<i64>) -> (r: u64)
        requires
            old(self).live(now) + old(self).abandoned <= u64::MAX,
        ensures
            *final(self) == (OwnLoad {
                abandoned: if engine_running is Some && engine_running->0 <= old(self).inflight {
                    0
                } else {
                    old(self).abandoned
                },
                ..*old(self)
            }),
            r == final(self).live(now) + final(self).abandoned,
    {
        if let Some(running) = engine_running {
            if running as i128 <= self.inflight as i128 {
                self.abandoned = 0;
            }
        }
        let live: u64 = if self.inflight > 0 {
            self.inflight
        } else if now < self.grace_until {
            1
        } else {
            0
        };
        live + self.abandoned
    }
}

/// The count never covers more of somebody else's traffic than the benchmark itself abandoned, and
/// one request for those that have just returned; once the engine runs no more than the benchmark
/// has in flight, nothing abandoned is covered at all.
pub proof fn law_own_load_hides_no_more_than_it_abandoned(before: OwnLoad, now: u64, running: Option<i64>)
    ensures
        ({
            let after = OwnLoad {
                abandoned: if running is Some && running->0 <= before.inflight {
                    0
                } else {
                    before.abandoned
                },
                ..before
            };
            let counted = after.live(now) + after.abandoned;
            &&& counted <= before.inflight + 1 + before.abandoned
            &&& before.inflight > 0 ==> counted <= before.inflight + before.abandoned
            &&& before.inflight == 0 && now >= before.grace_until ==> counted <= before.abandoned
            &&& running is Some && running->0 <= before.inflight ==> counted == after.live(now)
        }),
{
}

/// What is the benchmark's own: all that it has in flight; or one request, where it has none and its
/// last ones came back less than a poll ago; or none.
pub proof fn law_what_is_in_flight_is_its_own(own: OwnLoad, now: u64)
    ensures
        own.inflight > 0 ==> own.live(now) == own.inflight,
        own.inflight == 0 && now < own.grace_until ==> own.live(now) == 1,
        own.inflight == 0 && now >= own.grace_until ==> own.live(now) == 0,
{
}

/// A request that has returned counts for one poll and no longer: from then on only what was
/// abandoned is the benchmark's.
pub proof fn law_grace_lasts_one_poll(before: OwnLoad, at: u64, poll: u64, abandoned: u64, now: u64)
    requires
        at + poll <= u64::MAX,
        before.abandoned + abandoned <= u64::MAX,
    ensures
        ({
            let after = OwnLoad {
                inflight: 0,
                grace_until: (at + poll) as u64,
                abandoned: (before.abandoned + abandoned) as u64,
            };
            &&& now < at + poll ==> after.live(now) == 1
            &&& now >= at + poll ==> after.live(now) == 0
        }),
{
}

// --------------------------------------------------------------------- one run

/// A character of a model's name as it may stand in a directory's name.
pub open spec fn dir_char(c: char) -> char {
    if ('a' <= c <= 'z') || ('A' <= c <= 'Z') || ('0' <= c <= '9') || c == '.' || c == '-' {
        c
    } else {
        '_'
    }
}

/// A model's name as it stands in a directory's name: cut, and with `_` for what is unsafe there.
pub open spec fn model_dir_text(model: Seq<char>) -> Seq<char> {
    head(model.map_values(|c: char| dir_char(c)), 40)
}

/// A model's name as it stands in a directory's name: cut, and with `_` for what is unsafe there.
pub fn model_dir(model: &str) -> (r: String)
    ensures
        r@ == model_dir_text(model@),
{
    let v = chars_of(model);
    let mut out = String::new();
    let mut i: usize = 0;
    let ghost f = |c: char| dir_char(c);
    while i < v.len()
        invariant
            i <= v@.len(),
            f == (|c: char| dir_char(c)),
            out@ == v@.take(i as int).map_values(f),
        decreases v@.len() - i,
    {
        let c = v[i];
        let d = if ('a' <= c && c <= 'z') || ('A' <= c && c <= 'Z') || ('0' <= c && c <= '9') || c
            == '.' || c == '-' {
            c
        } else {
            '_'
        };
        out.push(d);
        assert(out@ =~= v@.take(i + 1).map_values(f));
        i += 1;
    }
    assert(v@.take(v@.len() as int) =~= v@);
    take(out.as_str(), 40)
}

/// The name of a run's directory.
pub fn run_dir(run_id: i64, profile: Profile, model: &str) -> (r: String)
    ensures
        r@ == dec_int(run_id as int) + "-"@ + profile_name(profile) + "-"@ + model_dir_text(model@),
{
    let mut s = dec_i64(run_id);
    s.append("-");
    s.append(profile.name().as_str());
    s.append("-");
    s.append(model_dir(model).as_str());
    s
}

/// What a harness step comes to: how it ended; then, where it was done, a result that could not be
/// copied back; then a refusal that its log tells of.
pub open spec fn harness_step(
    end: EndView,
    copied: Option<Result<(), String>>,
    dry_run: bool,
    refused: Option<String>,
    has_key: bool,
) -> EndView {
    match (end, copied) {
        (EndView::Done, Some(Err(e))) => EndView::Failed(e@),
        (EndView::Done, _) => match refused {
            Some(line) if !dry_run => EndView::Failed(
                "the engine refused the harness ("@ + line@ + ") - "@ + (if has_key {
                    "the [[engine]] api_key was refused: check it"@
                } else {
                    "this engine wants an API key: set api_key in its [[engine]] block (lss-collector setup)"@
                }),
            ),
            _ => EndView::Done,
        },
        (e, _) => e,
    }
}

/// What a harness step comes to: how it ended; then, where it was done, a result that could not be
/// copied back; then a refusal that its log tells of.
pub fn harness_end(
    end: StepEnd,
    copied: Option<Result<(), String>>,
    dry_run: bool,
    refused: Option<String>,
    has_key: bool,
) -> (r: StepEnd)
    ensures
        end_view(r) == harness_step(end_view(end), copied, dry_run, refused, has_key),
{
    match end {
        StepEnd::Done => {},
        e => {
            return e;
        },
    }
    if let Some(c) = copied {
        if let Err(e) = c {
            return StepEnd::Failed(e);
        }
    }
    if !dry_run {
        if let Some(line) = refused {
            let mut s = "the engine refused the harness (".to_owned();
            s.append(line.as_str());
            s.append(") - ");
            if has_key {
                s.append("the [[engine]] api_key was refused: check it");
            } else {
                s.append(
                    "this engine wants an API key: set api_key in its [[engine]] block (lss-collector setup)",
                );
            }
            return StepEnd::Failed(s);
        }
    }
    StepEnd::Done
}

/// A harness step is done exactly where the harness was, its results came back, and the engine did not
/// refuse it (a look at its help asks the engine nothing). A step that was stopped stays as it was
/// stopped, a result that was not copied is the failure, and a refusal is told with the engine's line.
pub proof fn law_a_step_is_done_where_nothing_failed(
    end: EndView,
    copied: Option<Result<(), String>>,
    dry_run: bool,
    refused: Option<String>,
    has_key: bool,
)
    ensures
        ({
            let r = harness_step(end, copied, dry_run, refused, has_key);
            let lost = copied is Some && copied->0 is Err;
            &&& r is Done <==> end is Done && !lost && (dry_run || refused is None)
            &&& !(end is Done) ==> r == end
            &&& end is Done && lost ==> r == EndView::Failed((copied->0->Err_0)@)
            &&& end is Done && !lost && !dry_run && refused is Some ==> r is Failed && holds(
                r->Failed_0,
                (refused->0)@,
            )
        }),
{
    if let Some(line) = refused {
        let a = "the engine refused the harness ("@;
        let b = ") - "@;
        let c = if has_key {
            "the [[engine]] api_key was refused: check it"@
        } else {
            "this engine wants an API key: set api_key in its [[engine]] block (lss-collector setup)"@
        };
        assert(a + line@ + b + c =~= a + line@ + (b + c));
        crate::text::lemma_stands_between(a, line@, b + c);
    }
}

/// Whether an answer means that the gateway, not the model, refused a long prompt.
pub open spec fn refused_as_too_large(code: u16) -> bool {
    code == 413 || code == 429 || code == 400
}

/// Whether an answer means that the gateway, not the model, refused a long prompt: the engine is
/// then asked directly.
pub fn asks_engine_directly(code: u16) -> (r: bool)
    ensures
        r == refused_as_too_large(code),
{
    code == 413 || code == 429 || code == 400
}

/// What a run has measured, as far as its verdict reads it.
pub struct Measured {
    pub nothing: bool,
    /// what the harness printed for a look at its help
    pub help: String,
    pub dir: String,
    pub harness: String,
    pub python: String,
    pub timeout_secs: u64,
}

/// What a run's end is called, and why it is no measurement where it is none.
pub open spec fn verdict(end: EndView, p: Profile, m: Measured) -> (Seq<char>, Option<Seq<char>>) {
    match end {
        EndView::Done => if p != Profile::DryRun && m.nothing {
            (
                "failed"@,
                Some(
                    "the harness finished but wrote no result this version of lss understands: see "@
                        + m.dir@,
                ),
            )
        } else if p == Profile::DryRun && !holds(m.help@, "--concurrency"@) {
            (
                "failed"@,
                Some(
                    "`"@ + m.python@ + " "@ + m.harness@
                        + " --help` did not print the harness's usage: wrong interpreter, or its dependencies (httpx, rich) are missing. See "@
                        + m.dir@ + "/harness.log"@,
                ),
            )
        } else {
            ("ok"@, None)
        },
        EndView::Aborted(why) => ("aborted"@, Some(why)),
        EndView::Timeout => (
            "timeout"@,
            Some(
                "timeout after "@ + dec(m.timeout_secs as nat) + "s (the `"@ + profile_name(p)
                    + "` profile's hard limit): the harness was killed"@,
            ),
        ),
        EndView::Failed(why) => ("failed"@, Some(why)),
    }
}

/// What a run's end is called, and why it is no measurement where it is none.
pub fn run_verdict(end: StepEnd, p: Profile, m: &Measured) -> (r: (String, Option<String>))
    ensures
        (r.0@, opt_view(r.1)) == verdict(end_view(end), p, *m),
{
    match end {
        StepEnd::Done => {
            if p != Profile::DryRun && m.nothing {
                let mut s = "the harness finished but wrote no result this version of lss understands: see ".to_owned();
                s.append(m.dir.as_str());
                ("failed".to_owned(), Some(s))
            } else if p == Profile::DryRun && !contains(m.help.as_str(), "--concurrency") {
                let mut s = "`".to_owned();
                s.append(m.python.as_str());
                s.append(" ");
                s.append(m.harness.as_str());
                s.append(
                    " --help` did not print the harness's usage: wrong interpreter, or its dependencies (httpx, rich) are missing. See ",
                );
                s.append(m.dir.as_str());
                s.append("/harness.log");
                ("failed".to_owned(), Some(s))
            } else {
                ("ok".to_owned(), None)
            }
        },
        StepEnd::Aborted(why) => ("aborted".to_owned(), Some(why)),
        StepEnd::Timeout => {
            let mut s = "timeout after ".to_owned();
            s.append(dec_u64(m.timeout_secs).as_str());
            s.append("s (the `");
            s.append(p.name().as_str());
            s.append("` profile's hard limit): the harness was killed");
            ("timeout".to_owned(), Some(s))
        },
        StepEnd::Failed(why) => ("failed".to_owned(), Some(why)),
    }
}

/// A run is called `ok` exactly where every step was done and something was measured (for a look at
/// the help: where the help was printed); whatever else, it says why.
pub proof fn law_ok_means_measured(end: EndView, p: Profile, m: Measured)
    ensures
        verdict(end, p, m).1 is None <==> verdict(end, p, m).0 == "ok"@,
        verdict(end, p, m).0 == "ok"@ <==> end is Done && (if p == Profile::DryRun {
            holds(m.help@, "--concurrency"@)
        } else {
            !m.nothing
        }),
{
    reveal_strlit("ok");
    reveal_strlit("failed");
    reveal_strlit("aborted");
    reveal_strlit("timeout");
    assert("ok"@.len() == 2 && "failed"@.len() == 6 && "aborted"@.len() == 7 && "timeout"@.len()
        == 7);
}

/// A run that was stopped or failed is called so, with the reason it was stopped or failed for; one that
/// ran out of time is called a timeout.
pub proof fn law_a_run_that_ended_early_says_so(end: EndView, p: Profile, m: Measured)
    ensures
        end matches EndView::Aborted(why) ==> verdict(end, p, m) == ("aborted"@, Some(why)),
        end matches EndView::Failed(why) ==> verdict(end, p, m) == ("failed"@, Some(why)),
        end is Timeout ==> verdict(end, p, m).0 == "timeout"@ && holds(
            verdict(end, p, m).1->0,
            dec(m.timeout_secs as nat),
        ),
        end is Done && verdict(end, p, m).1 is Some ==> verdict(end, p, m).0 == "failed"@,
{
    let (a, b) = ("timeout after "@, "s (the `"@ + profile_name(p) + "` profile's hard limit): the harness was killed"@);
    let n = dec(m.timeout_secs as nat);
    assert(a + n + "s (the `"@ + profile_name(p) + "` profile's hard limit): the harness was killed"@
        =~= a + n + b);
    crate::text::lemma_stands_between(a, n, b);
}

/// The order of two cells of the decode matrix: by context, then by concurrency.
pub open spec fn key_before(a: (u64, u64), b: (u64, u64)) -> bool {
    a.0 < b.0 || (a.0 == b.0 && a.1 < b.1)
}

/// Whether `i` is the first cell of its key.
pub open spec fn first_of_key(keys: Seq<(u64, u64)>, i: int) -> bool {
    forall|j: int| 0 <= j < i ==> #[trigger] keys[j] != keys[i]
}

/// Whether one of the cells `r` has this key.
pub open spec fn has_cell(keys: Seq<(u64, u64)>, r: Seq<usize>, key: (u64, u64)) -> bool {
    exists|k: int| 0 <= k < r.len() && keys[#[trigger] r[k] as int] == key
}

/// The joined matrix of the first `n` cells: the first cell of every key, in the order of the keys.
pub open spec fn is_matrix(keys: Seq<(u64, u64)>, n: int, r: Seq<usize>) -> bool {
    &&& forall|k: int| 0 <= k < r.len() ==> (#[trigger] r[k]) < n && first_of_key(keys, r[k] as int)
    &&& forall|j: int, k: int|
        0 <= j < k < r.len() ==> key_before(keys[#[trigger] r[j] as int], keys[#[trigger] r[k] as int])
    &&& forall|i: int| 0 <= i < n ==> has_cell(keys, r, #[trigger] keys[i])
}

proof fn lemma_cell_added(keys: Seq<(u64, u64)>, before: Seq<usize>, p: int, i: usize)
    requires
        0 <= i < keys.len(),
        0 <= p <= before.len(),
        is_matrix(keys, i as int, before),
        forall|k: int| 0 <= k < p ==> key_before(keys[#[trigger] before[k] as int], keys[i as int]),
        p < before.len() ==> key_before(keys[i as int], keys[before[p] as int]),
    ensures
        is_matrix(keys, i + 1, before.insert(p, i)),
{
    let after = before.insert(p, i);
    let key = keys[i as int];
    assert forall|k: int| p <= k < before.len() implies key_before(
        key,
        keys[#[trigger] before[k] as int],
    ) by {
        if k > p {
            assert(key_before(keys[before[p] as int], keys[before[k] as int]));
        }
    }
    assert forall|j: int| 0 <= j < i implies #[trigger] keys[j] != key by {
        assert(has_cell(keys, before, keys[j]));
        let m = choose|m: int| 0 <= m < before.len() && keys[#[trigger] before[m] as int] == keys[j];
        assert(key_before(keys[before[m] as int], key) || key_before(key, keys[before[m] as int]));
    }
    assert(first_of_key(keys, i as int));
    assert forall|k: int| 0 <= k < after.len() implies (#[trigger] after[k]) < i + 1 && first_of_key(
        keys,
        after[k] as int,
    ) by {
        if k < p {
            assert(after[k] == before[k]);
        } else if k > p {
            assert(after[k] == before[k - 1]);
        }
    }
    assert forall|j: int, k: int| 0 <= j < k < after.len() implies key_before(
        keys[#[trigger] after[j] as int],
        keys[#[trigger] after[k] as int],
    ) by {
        if j < p {
            assert(after[j] == before[j]);
        } else if j > p {
            assert(after[j] == before[j - 1]);
        }
        if k < p {
            assert(after[k] == before[k]);
        } else if k > p {
            assert(after[k] == before[k - 1]);
        }
    }
    assert forall|x: int| 0 <= x < i + 1 implies has_cell(keys, after, #[trigger] keys[x]) by {
        if x == i {
            assert(keys[after[p] as int] == keys[x]);
        } else {
            assert(has_cell(keys, before, keys[x]));
            let m = choose|m: int|
                0 <= m < before.len() && keys[#[trigger] before[m] as int] == keys[x];
            if m < p {
                assert(after[m] == before[m]);
            } else {
                assert(after[m + 1] == before[m]);
            }
        }
    }
}

/// Joins cells of one matrix: which of them stay, in the order of their keys. Where two have one
/// key, the first stays.
pub fn join_cells(keys: &Vec<(u64, u64)>) -> (r: Vec<usize>)
    ensures
        is_matrix(keys@, keys@.len() as int, r@),
{
    let mut out: Vec<usize> = Vec::new();
    let mut i: usize = 0;
    while i < keys.len()
        invariant
            i <= keys@.len(),
            is_matrix(keys@, i as int, out@),
        decreases keys@.len() - i,
    {
        let key: (u64, u64) = keys[i];
        let mut p: usize = 0;
        while p < out.len() && (keys[out[p]].0 < key.0 || (keys[out[p]].0 == key.0
            && keys[out[p]].1 < key.1))
            invariant
                i < keys@.len(),
                key == keys@[i as int],
                p <= out@.len(),
                forall|k: int| 0 <= k < out@.len() ==> (#[trigger] out@[k]) < i,
                forall|k: int| 0 <= k < p ==> key_before(keys@[#[trigger] out@[k] as int], key),
            decreases out@.len() - p,
        {
            p += 1;
        }
        if p < out.len() && keys[out[p]].0 == key.0 && keys[out[p]].1 == key.1 {
            proof {
                assert(keys@[out@[p as int] as int] == keys@[i as int]);
                assert(has_cell(keys@, out@, keys@[i as int]));
            }
        } else {
            proof {
                lemma_cell_added(keys@, out@, p as int, i);
            }
            out.insert(p, i);
        }
        i += 1;
    }
    out
}

// --------------------------------------------------------------- accuracy A and B

/// A refusal of a benchmark's request as the body of an answer.
pub open spec fn refusal_body(message: Seq<char>) -> Seq<char> {
    "{\"message\":"@ + quoted_text(message) + ",\"ok\":false,\"v\":1}\n"@
}

pub(crate) fn refusal_json(message: &str) -> (r: String)
    ensures
        r@ == refusal_body(message@),
{
    let mut s = "{\"message\":".to_owned();
    s.append(quoted(message).as_str());
    s.append(",\"ok\":false,\"v\":1}\n");
    s
}

/// What is asked of the harness: how the first file compares with the second.
pub open spec fn compare_words(a: Seq<char>, b: Seq<char>, out: Seq<char>) -> Seq<Seq<char>> {
    seq![
        "--compare-baseline"@,
        b,
        "--compare-candidate"@,
        a,
        "--display-mode"@,
        "plain"@,
        "--output"@,
        out,
    ]
}

/// The arguments of the harness for a comparison: the candidate `a` against the baseline `b`.
pub fn compare_argv(harness: &str, a: &str, b: &str, out: &str) -> (r: Vec<String>)
    ensures
        views(r@) == seq![harness@] + compare_words(a@, b@, out@),
{
    let mut v: Vec<String> = Vec::new();
    v.push(harness.to_owned());
    v.push("--compare-baseline".to_owned());
    v.push(b.to_owned());
    v.push("--compare-candidate".to_owned());
    v.push(a.to_owned());
    v.push("--display-mode".to_owned());
    v.push("plain".to_owned());
    v.push("--output".to_owned());
    v.push(out.to_owned());
    assert(views(v@) =~= seq![harness@] + compare_words(a@, b@, out@));
    v
}

/// An answer's status and body, as values.
pub open spec fn answer_view(a: Option<(u16, String)>) -> Option<(int, Seq<char>)> {
    match a {
        Some(p) => Some((p.0 as int, p.1@)),
        None => None,
    }
}

/// Whether a comparison may be made: there is a harness, and both files are results that the
/// benchmarks under `root` wrote. The answer to show where it may not.
pub fn compare_refusal(
    harness: &Result<String, String>,
    root: &str,
    a_inside: bool,
    b_inside: bool,
) -> (r: Option<(u16, String)>)
    ensures
        answer_view(r) == (match *harness {
            Err(e) => Some((409int, refusal_body(e@))),
            Ok(_) => if a_inside && b_inside {
                None
            } else {
                Some((400int, refusal_body("both files must be accuracy results under "@ + root@)))
            },
        }),
{
    match harness {
        Err(e) => Some((409, refusal_json(e.as_str()))),
        Ok(_) => {
            if a_inside && b_inside {
                None
            } else {
                let mut s = "both files must be accuracy results under ".to_owned();
                s.append(root);
                Some((400, refusal_json(s.as_str())))
            }
        },
    }
}

/// What a comparison answers. `written` is the file that the harness wrote, as far as it was
/// readable.
pub open spec fn comparison(run: Result<CmdOutput, String>, written: Option<Seq<char>>) -> (
    int,
    Seq<char>,
) {
    match run {
        Ok(o) => if o.success {
            (
                200,
                "{\"comparison\":"@ + (match written {
                    Some(t) => member_again(t, "comparison"@),
                    None => "null"@,
                }) + ",\"ok\":true,\"text\":"@ + quoted_text(o.stdout@) + ",\"v\":1}\n"@,
            )
        } else {
            (
                502,
                refusal_body(
                    "the harness could not compare the two files: "@ + last_word(
                        o.stderr@,
                        "no output"@,
                    ),
                ),
            )
        },
        Err(e) => (502, refusal_body(e@)),
    }
}

/// A comparison succeeds exactly where the harness did; else it is a failure behind this server, and
/// what could not be run is told.
pub proof fn law_a_comparison_succeeds_with_the_harness(
    run: Result<CmdOutput, String>,
    written: Option<Seq<char>>,
)
    ensures
        comparison(run, written).0 == 200 <==> (run matches Ok(o) && o.success),
        comparison(run, written).0 == 200 || comparison(run, written).0 == 502,
        run matches Err(e) ==> holds(comparison(run, written).1, quoted_text(e@)),
        run matches Ok(o) ==> (o.success ==> holds(comparison(run, written).1, quoted_text(o.stdout@))),
{
    match run {
        Ok(o) => {
            let a = "{\"comparison\":"@ + (match written {
                Some(t) => member_again(t, "comparison"@),
                None => "null"@,
            }) + ",\"ok\":true,\"text\":"@;
            crate::text::lemma_stands_between(a, quoted_text(o.stdout@), ",\"v\":1}\n"@);
        },
        Err(e) => {
            crate::text::lemma_stands_between(
                "{\"message\":"@,
                quoted_text(e@),
                ",\"ok\":false,\"v\":1}\n"@,
            );
        },
    }
}

/// What a comparison answers. `written` is the file that the harness wrote, as far as it was
/// readable.
pub fn compare_accuracy(run: &Result<CmdOutput, String>, written: Option<&str>) -> (r: (u16, String))
    ensures
        (r.0 as int, r.1@) == comparison(*run, crate::collect::opt_str(written)),
{
    match run {
        Ok(o) => {
            if o.success {
                let mut s = "{\"comparison\":".to_owned();
                match written {
                    Some(t) => {
                        s.append(member_text(t, "comparison").as_str());
                    },
                    None => {
                        s.append("null");
                    },
                }
                s.append(",\"ok\":true,\"text\":");
                s.append(quoted(o.stdout.as_str()).as_str());
                s.append(",\"v\":1}\n");
                (200, s)
            } else {
                let mut s = "the harness could not compare the two files: ".to_owned();
                s.append(last_line_or(o.stderr.as_str(), "no output").as_str());
                (502, refusal_json(s.as_str()))
            }
        },
        Err(e) => (502, refusal_json(e.as_str())),
    }
}

// ---------------------------------------------------------- what a run says of itself

/// Whether a cell is shown by itself or by an earlier one of the same context and concurrency.
pub open spec fn is_shown_by_first(keys: Seq<(u64, u64)>, r: Seq<usize>, i: int) -> bool {
    exists|k: int| 0 <= k < r.len() && keys[#[trigger] r[k] as int] == keys[i] && r[k] <= i
}

/// The joined matrix holds every context and concurrency that was measured exactly once, by its first
/// cell, and in order: by context, and within one by concurrency.
pub proof fn law_the_matrix_has_each_cell_once(keys: Seq<(u64, u64)>, r: Seq<usize>)
    requires
        is_matrix(keys, keys.len() as int, r),
    ensures
        forall|j: int, k: int|
            0 <= j < k < r.len() ==> {
                let a = keys[#[trigger] r[j] as int];
                let b = keys[#[trigger] r[k] as int];
                a != b && a.0 <= b.0 && (a.0 == b.0 ==> a.1 < b.1)
            },
        forall|i: int| 0 <= i < keys.len() ==> #[trigger] is_shown_by_first(keys, r, i),
{
    assert forall|i: int| 0 <= i < keys.len() implies #[trigger] is_shown_by_first(keys, r, i) by {
        assert(has_cell(keys, r, keys[i]));
        let k = choose|k: int| 0 <= k < r.len() && keys[#[trigger] r[k] as int] == keys[i];
        assert(first_of_key(keys, r[k] as int));
        assert(r[k] <= i);
    }
}

/// In a comparison the first file is the candidate and the second the baseline, and the result goes to
/// the file that is named for it.
pub proof fn law_a_comparison_names_its_files(a: Seq<char>, b: Seq<char>, out: Seq<char>)
    ensures
        ({
            let words = compare_words(a, b, out);
            &&& words[1] == b && words[0] == "--compare-baseline"@
            &&& words[3] == a && words[2] == "--compare-candidate"@
            &&& words.last() == out && words[words.len() - 2] == "--output"@
        }),
{
}

/// A benchmark that runs already is named, with how long it has run and who runs it, and so is one that
/// has just started, with its model and its number; a run under load says that it does not stop for
/// others.
pub proof fn law_a_running_benchmark_is_named(
    pid: int,
    profile: Seq<char>,
    secs: int,
    p: Profile,
    model: Seq<char>,
    id: int,
    under_load: bool,
)
    ensures
        crate::text::holds(held_sentence(pid, profile, secs), "("@ + profile + ", started "@),
        crate::text::holds(held_sentence(pid, profile, secs), ", started "@ + dec_int(secs) + "s ago"@),
        crate::text::holds(held_sentence(pid, profile, secs), "pid "@ + dec_int(pid) + ")"@),
        crate::text::holds(running_text(Some(profile)), "("@ + profile + ")"@),
        crate::text::holds(
            started_text(p, model, id, under_load),
            "`"@ + profile_name(p) + "` started on "@ + model + " (run "@ + dec_int(id) + ")"@,
        ),
        under_load ==> crate::text::ends(
            started_text(p, model, id, under_load),
            "It runs to the end WITH whatever else is on the server, and the scorecard records what that was."@,
        ),
        !under_load ==> crate::text::ends(
            started_text(p, model, id, under_load),
            "It stops by itself if anyone else uses the server."@,
        ),
{
    let h = held_sentence(pid, profile, secs);
    let a = "a benchmark is already running ("@;
    let b = ", started "@;
    let c = "s ago, pid "@;
    let d = "): one at a time. `lss bench status` shows it, `lss bench cancel` stops it"@;
    reveal_strlit("a benchmark is already running (");
    reveal_strlit("s ago, pid ");
    reveal_strlit("s ago");
    reveal_strlit("pid ");
    reveal_strlit("): one at a time. `lss bench status` shows it, `lss bench cancel` stops it");
    reveal_strlit("(");
    reveal_strlit(")");
    let t = dec_int(secs);
    let n = dec_int(pid);
    let na = a.len() - 1;
    assert(a =~= a.take(na) + "("@);
    assert(h =~= a.take(na) + ("("@ + profile + b) + (t + c + n + d));
    crate::text::lemma_stands_between(a.take(na), "("@ + profile + b, t + c + n + d);
    assert(c =~= "s ago"@ + c.skip(5));
    assert(h =~= (a + profile) + (b + t + "s ago"@) + (c.skip(5) + n + d));
    crate::text::lemma_stands_between(a + profile, b + t + "s ago"@, c.skip(5) + n + d);
    let nc = c.len() - 4;
    assert(c =~= c.take(nc) + "pid "@);
    assert(d =~= ")"@ + d.skip(1));
    assert(h =~= (a + profile + b + t + c.take(nc)) + ("pid "@ + n + ")"@) + d.skip(1));
    crate::text::lemma_stands_between(
        a + profile + b + t + c.take(nc),
        "pid "@ + n + ")"@,
        d.skip(1),
    );
    let r = running_text(Some(profile));
    assert(r =~= a.take(na) + ("("@ + profile + ")"@) + d.skip(1));
    crate::text::lemma_stands_between(a.take(na), "("@ + profile + ")"@, d.skip(1));
    let s = started_text(p, model, id, under_load);
    let e = "benchmark `"@;
    let end = "). "@;
    reveal_strlit("benchmark `");
    reveal_strlit("`");
    reveal_strlit("). ");
    let last = if under_load {
        "It runs to the end WITH whatever else is on the server, and the scorecard records what that was."@
    } else {
        "It stops by itself if anyone else uses the server."@
    };
    let mid = profile_name(p) + "` started on "@ + model + " (run "@ + dec_int(id);
    assert(e =~= e.take(10) + "`"@);
    assert(end =~= ")"@ + end.skip(1));
    let part = "`"@ + profile_name(p) + "` started on "@ + model + " (run "@ + dec_int(id) + ")"@;
    assert(s =~= e + mid + end + last);
    assert(s =~= e.take(10) + part + (end.skip(1) + last));
    crate::text::lemma_stands_between(e.take(10), part, end.skip(1) + last);
    assert(s.skip(s.len() - last.len()) =~= last);
}

/// The load of a run goes to the engine itself where there is a harness, and else through its own
/// requests; its small checks go through the gateway where there is one.
pub proof fn law_the_route_names_where_it_goes(chat: Seq<char>, engine: Seq<char>, gate: Seq<char>)
    ensures
        crate::text::holds(load_route(true, chat, engine), "engine direct ("@ + engine + ")"@),
        crate::text::holds(load_route(false, chat, engine), chat + "/v1/chat/completions"@),
        crate::text::holds(check_route(Some(gate)), "gateway's trusted port ("@ + gate + ")"@),
        crate::text::holds(check_route(None), "straight to the engine"@),
{
    let none = Seq::<char>::empty();
    let h = load_route(true, chat, engine);
    let b = "): the harness cannot send X-LSS-Bench, so it bypasses the gateway"@;
    reveal_strlit("): the harness cannot send X-LSS-Bench, so it bypasses the gateway");
    reveal_strlit(")");
    let p = "engine direct ("@ + engine + ")"@;
    assert(b =~= ")"@ + b.skip(1));
    assert(h =~= none + p + b.skip(1));
    crate::text::lemma_stands_between(none, p, b.skip(1));
    let m = load_route(false, chat, engine);
    let c = "built-in mini bench (no external harness configured): lss's own requests to "@;
    let d = "/v1/chat/completions with X-LSS-Bench: 1"@;
    reveal_strlit("/v1/chat/completions with X-LSS-Bench: 1");
    reveal_strlit("/v1/chat/completions");
    let q = chat + "/v1/chat/completions"@;
    assert(d =~= "/v1/chat/completions"@ + d.skip(20));
    assert(m =~= c + q + d.skip(20));
    crate::text::lemma_stands_between(c, q, d.skip(20));
    let g = check_route(Some(gate));
    let e = "sanity checks and the needle go through the gateway's trusted port ("@;
    let f = ") with X-LSS-Bench: 1"@;
    reveal_strlit("sanity checks and the needle go through the gateway's trusted port (");
    reveal_strlit("gateway's trusted port (");
    reveal_strlit(") with X-LSS-Bench: 1");
    let ne = e.len() - "gateway's trusted port ("@.len();
    assert(e =~= e.take(ne) + "gateway's trusted port ("@);
    assert(f =~= ")"@ + f.skip(1));
    let r = "gateway's trusted port ("@ + gate + ")"@;
    assert(g =~= e.take(ne) + r + f.skip(1));
    crate::text::lemma_stands_between(e.take(ne), r, f.skip(1));
    let s = check_route(None);
    let w = "straight to the engine"@;
    reveal_strlit("sanity checks and the needle go straight to the engine (no gateway configured), with X-LSS-Bench: 1");
    reveal_strlit("straight to the engine");
    assert(s.subrange(32, 54) =~= w);
    assert(s =~= s.take(32) + w + s.skip(54));
    crate::text::lemma_stands_between(s.take(32), w, s.skip(54));
}

/// The operator's word ends a run before its time does, and without either it goes on. Whoever else
/// uses the server ends a run too, and is named, but a run under load is never ended for others.
pub proof fn law_a_run_ends_for_a_reason(
    cancel: bool,
    late: bool,
    now: Option<StepEnd>,
    under_load: bool,
    foreign: Option<String>,
    met: Option<StepEnd>,
)
    requires
        call_ensures(stop_at_once, (cancel, late), now),
        call_ensures(must_stop, (under_load, foreign), met),
    ensures
        now is None <==> !cancel && !late,
        cancel ==> (stop_view(now) matches Some(EndView::Aborted(why)) && why
            == "cancelled by the operator"@),
        !cancel && late ==> stop_view(now) == Some(EndView::Timeout),
        met is None <==> under_load || foreign is None,
        met is Some ==> (stop_view(met) matches Some(EndView::Aborted(why)) && crate::text::ends(
            why,
            foreign->0@,
        )),
{
    if met is Some {
        let why = "aborted: "@ + foreign->0@;
        assert(why.skip(why.len() - foreign->0@.len()) =~= foreign->0@);
    }
}

/// A run waits for the engine to settle until it is quiet or the wait is over, thirty polls of it at
/// most and never over a minute; under load it does not wait.
pub proof fn law_settling_is_short(
    under_load: bool,
    quiet: bool,
    late: bool,
    done: bool,
    poll_ms: u64,
    wait: u64,
)
    requires
        poll_ms * 30 <= u64::MAX,
        call_ensures(settle, (under_load, quiet, late), done),
        call_ensures(settle_ms, (poll_ms,), wait),
    ensures
        !done <==> !under_load && !quiet && !late,
        wait <= 60 * 1000,
        wait <= poll_ms * 30,
        wait == 60 * 1000 || wait == poll_ms * 30,
{
}

/// A lock is free where its file could be made. One that a living process holds is refused; one that a
/// dead process left is taken over, but only once. A process is alive where it was found or may not be
/// asked, and no process has a number below one.
pub proof fn law_a_dead_lock_is_taken_over_once(
    attempt: u32,
    t: LockTry,
    now: i64,
    r: LockStep,
    pid: i32,
    found: bool,
    forbidden: bool,
    alive: bool,
    own: u32,
    cleared: bool,
)
    requires
        call_ensures(take_lock, (attempt, &t, now), r),
        call_ensures(pid_alive, (pid, found, forbidden), alive),
        call_ensures(recover, (pid, alive, own), cleared),
    ensures
        r is Taken <==> t is Created,
        r is TakeOver <==> attempt == 0 && (t matches LockTry::Held(_, lives) && !lives),
        (t matches LockTry::Held(_, lives) && lives) ==> r is Refused,
        t is Failed ==> r is Refused,
        pid <= 0 ==> !alive,
        pid > 0 ==> (alive <==> found || forbidden),
        !alive ==> cleared,
        alive && pid != own as i32 ==> !cleared,
{
}

/// An answer that refuses the key stops a run; an open list of models asks for a chat as well; any
/// other answer is not a matter of the key. Load is forced where that is asked for in either way.
pub proof fn law_a_refused_key_stops_a_run(
    status: Option<u16>,
    refused: Option<String>,
    r: Preflight,
    req: BenchRequest,
    forced: bool,
)
    requires
        call_ensures(preflight, (status, refused), r),
        call_ensures(BenchRequest::forced, (&req,), forced),
    ensures
        r is Refused <==> refused is Some,
        r is Refused ==> r->Refused_0 == refused->0,
        r is AskChat <==> refused is None && status == Some(200u16),
        forced <==> req.force || req.under_load,
{
}

/// Two results are compared where there is a harness and both are the collector's own; without a
/// harness the comparison cannot be made, and with a file from elsewhere it is not.
pub proof fn law_only_own_results_are_compared(
    harness: Result<String, String>,
    root: &str,
    a_inside: bool,
    b_inside: bool,
    r: Option<(u16, String)>,
)
    requires
        call_ensures(compare_refusal, (&harness, root, a_inside, b_inside), r),
    ensures
        r is None <==> harness is Ok && a_inside && b_inside,
        harness is Err ==> r is Some && (r->0).0 == 409,
        harness is Ok && !(a_inside && b_inside) ==> r is Some && (r->0).0 == 400,
{
}

/// A model's name makes the name of a directory: its letters, digits, dots and hyphens stand as they
/// are, every other character is an underscore, and no more than forty of them stand at all.
pub proof fn law_a_model_names_a_directory(model: Seq<char>)
    ensures
        model_dir_text(model).len() == (if model.len() <= 40 {
            model.len()
        } else {
            40
        }),
        forall|i: int|
            #![trigger model_dir_text(model)[i]]
            0 <= i < model_dir_text(model).len() ==> {
                let c = model[i] as int;
                let stands = 97 <= c < 97 + 26 || 65 <= c < 65 + 26 || 48 <= c < 48 + 10 || model[i]
                    == '.' || model[i] == '-';
                &&& stands ==> model_dir_text(model)[i] == model[i]
                &&& !stands ==> model_dir_text(model)[i] == '_'
            },
{
}

} // verus!
