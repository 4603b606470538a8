//! The steps of a benchmark run: which comes next, how its requests and its harness are waited for,
//! and what a copy of its results comes to.

use crate::bench_run::{
    abandoned_among, asks_engine_directly, count_abandoned, end_view, refused_as_too_large,
    stop_view, EndView, Returned, StepEnd,
};
use crate::json::{quoted, quoted_text};
use crate::nvml::bytes_value;
use crate::text::opt_view;
use vstd::prelude::*;
use vstd::string::*;

verus! {

// ---------------------------------------------------------------- which step is next

/// A run on its way through its steps.
pub struct Runner {
    /// how the last step ended: none follows one that was not done
    pub end: StepEnd,
    pub at: usize,
    pub steps: usize,
}

/// The step that is next: none once one was not done.
pub open spec fn next_step(end: EndView, at: int, steps: int) -> Option<int> {
    if end is Done && at < steps {
        Some(at)
    } else {
        None
    }
}

impl Runner {
    /// A run of `steps` steps, whose directory `dir` was made, or was not: why.
    pub fn new(made: Result<(), String>, dir: &str, steps: usize) -> (r: Runner)
        ensures
            end_view(r.end) == (match made {
                Ok(_) => EndView::Done,
                Err(e) => EndView::Failed("cannot create "@ + dir@ + ": "@ + e@),
            }),
            r.at == 0,
            r.steps == steps,
    {
        let end = match made {
            Ok(_) => StepEnd::Done,
            Err(e) => {
                let mut s = "cannot create ".to_owned();
                s.append(dir);
                s.append(": ");
                s.append(e.as_str());
                StepEnd::Failed(s)
            },
        };
        Runner { end, at: 0, steps }
    }

    /// Whether the engine is asked first: the run has not failed, and one of its steps sends a
    /// harness to the engine.
    pub fn asks_first(&self, loads_engine: &Vec<bool>) -> (r: bool)
        ensures
            r == (self.end is Done && loads_engine@.contains(true)),
    {
        let done = match self.end {
            StepEnd::Done => true,
            _ => false,
        };
        if !done {
            return false;
        }
        let mut i: usize = 0;
        while i < loads_engine.len()
            invariant
                i <= loads_engine@.len(),
                forall|k: int| 0 <= k < i ==> !loads_engine@[k],
                self.end is Done,
            decreases loads_engine@.len() - i,
        {
            if loads_engine[i] {
                assert(loads_engine@[i as int] == true);
                return true;
            }
            i += 1;
        }
        false
    }

    /// The step that is next.
    pub fn next(&mut self) -> (r: Option<usize>)
        ensures
            match r {
                Some(i) => next_step(end_view(old(self).end), old(self).at as int, old(self).steps as int) == Some(
                    i as int,
                ),
                None => next_step(end_view(old(self).end), old(self).at as int, old(self).steps as int) is None,
            },
            *final(self) == (Runner {
                at: if r is Some {
                    (old(self).at + 1) as usize
                } else {
                    old(self).at
                },
                ..*old(self)
            }),
    {
        let done = match self.end {
            StepEnd::Done => true,
            _ => false,
        };
        if done && self.at < self.steps {
            let i: usize = self.at;
            self.at = i + 1;
            Some(i)
        } else {
            None
        }
    }

    /// A step is over: where something stopped it, that is how the run ends.
    pub fn stepped(&mut self, stop: Option<StepEnd>)
        ensures
            final(self).end == (match stop {
                Some(e) => e,
                None => old(self).end,
            }),
            final(self).at == old(self).at,
            final(self).steps == old(self).steps,
    {
        if let Some(e) = stop {
            self.end = e;
        }
    }
}

/// Nothing runs after a step that was not done, however many were planned.
pub proof fn law_nothing_follows_a_stop(end: EndView, at: int, steps: int)
    requires
        !(end is Done),
    ensures
        next_step(end, at, steps) is None,
{
}

// ---------------------------------------------------------------- questions in turn

/// What the questions of a step are for.
#[derive(Clone, Copy, PartialEq, Eq, Structural, Debug)]
pub enum Questions {
    /// each answer is graded, whatever it is
    Sanity,
    /// the texts of the answers are looked through
    Garble,
    /// each answer is graded; a prompt that the gateway refuses goes to the engine itself
    Needle,
}

/// What becomes of the answer to a question.
#[derive(Clone, Copy, PartialEq, Eq, Structural, Debug)]
pub enum Heard {
    /// it counts
    Counts,
    /// it does not
    Left,
    /// the same question is put to the engine itself
    AskAgain,
    /// there is none: the step is stopped
    Stopped,
}

/// What becomes of an answer with this status. `direct`: it is the engine's own.
pub open spec fn heard(kind: Questions, direct: bool, code: u16) -> Heard {
    match kind {
        Questions::Sanity => Heard::Counts,
        Questions::Garble => if code == 200 {
            Heard::Counts
        } else {
            Heard::Left
        },
        Questions::Needle => if !direct && refused_as_too_large(code) {
            Heard::AskAgain
        } else {
            Heard::Counts
        },
    }
}

/// A step that puts one question after the other.
pub struct Asking {
    pub kind: Questions,
    pub of: usize,
    /// the question that is next
    pub at: usize,
    /// whether it goes to the engine itself
    pub direct: bool,
    pub stop: Option<StepEnd>,
}

impl Asking {
    /// A step of `of` questions.
    pub fn new(kind: Questions, of: usize) -> (r: Asking)
        ensures
            r == (Asking { kind, of, at: 0, direct: false, stop: None }),
    {
        Asking { kind, of, at: 0, direct: false, stop: None }
    }

    /// The question that is next, and whether it goes to the engine itself: none once all were put, or
    /// something stopped the step.
    pub open spec fn question(self) -> Option<(usize, bool)> {
        if self.stop is None && self.at < self.of {
            Some((self.at, self.direct))
        } else {
            None
        }
    }

    /// The question that is next, and whether it goes to the engine itself: none once all were put, or
    /// something stopped the step.
    pub fn next(&self) -> (r: Option<(usize, bool)>)
        ensures
            r == self.question(),
    {
        if self.stop.is_none() && self.at < self.of {
            Some((self.at, self.direct))
        } else {
            None
        }
    }

    /// The answer to the question that was next: its status, or what stopped the step.
    pub fn hear(&mut self, got: Result<u16, StepEnd>) -> (r: Heard)
        requires
            old(self).question() is Some,
        ensures
            match got {
                Err(end) => r == Heard::Stopped && *final(self) == (Asking {
                    stop: Some(end),
                    ..*old(self)
                }),
                Ok(code) => {
                    &&& r == heard(old(self).kind, old(self).direct, code)
                    &&& *final(self) == (if r == Heard::AskAgain {
                        Asking { direct: true, ..*old(self) }
                    } else {
                        Asking { at: (old(self).at + 1) as usize, direct: false, ..*old(self) }
                    })
                },
            },
    {
        let code: u16 = match got {
            Ok(code) => code,
            Err(end) => {
                self.stop = Some(end);
                return Heard::Stopped;
            },
        };
        let r = match self.kind {
            Questions::Sanity => Heard::Counts,
            Questions::Garble => if code == 200 {
                Heard::Counts
            } else {
                Heard::Left
            },
            Questions::Needle => if !self.direct && asks_engine_directly(code) {
                Heard::AskAgain
            } else {
                Heard::Counts
            },
        };
        if r == Heard::AskAgain {
            self.direct = true;
        } else {
            self.at = self.at + 1;
            self.direct = false;
        }
        r
    }
}

/// A step of questions comes to its end: every answer, whatever it is, brings it nearer, no question is
/// put to the engine twice, and nothing is asked once the step is stopped.
pub proof fn law_every_answer_counts_down(before: Asking, got: Result<u16, StepEnd>, after: Asking)
    requires
        before.question() is Some,
        match got {
            Err(end) => after == (Asking { stop: Some(end), ..before }),
            Ok(code) => after == (if heard(before.kind, before.direct, code) == Heard::AskAgain {
                Asking { direct: true, ..before }
            } else {
                Asking { at: (before.at + 1) as usize, direct: false, ..before }
            }),
        },
    ensures
        got is Err ==> after.question() is None,
        got is Ok ==> 2 * (after.of - after.at) - (if after.direct {
            1int
        } else {
            0
        }) < 2 * (before.of - before.at) - (if before.direct {
            1int
        } else {
            0
        }),
        before.direct && got is Ok ==> !after.direct && after.at == before.at + 1,
{
}

/// What is added to the note on an answer that came from the engine itself.
pub fn direct_note(direct: bool) -> (r: String)
    ensures
        r@ == (if direct {
            " (the gateway refused a prompt this large; sent straight to the engine)"@
        } else {
            Seq::<char>::empty()
        }),
{
    if direct {
        " (the gateway refused a prompt this large; sent straight to the engine)".to_owned()
    } else {
        String::new()
    }
}

/// Whether the engine is left to settle after a harness: its step was done, and sent it something.
pub fn settles_after(end: &StepEnd, dry_run: bool) -> (r: bool)
    ensures
        r == (*end is Done && !dry_run),
{
    match end {
        StepEnd::Done => !dry_run,
        _ => false,
    }
}

/// What stops a run, of how a step ended: nothing where it was done.
pub fn stop_of(end: StepEnd) -> (r: Option<StepEnd>)
    ensures
        r == (if end is Done {
            None
        } else {
            Some(end)
        }),
{
    match end {
        StepEnd::Done => None,
        stop => Some(stop),
    }
}

// ---------------------------------------------------------------- requests

/// What became of one request to the engine.
pub enum Answer {
    /// a status of the server, and the body
    Served(u16, String),
    /// no status: why, and whether the client's own clock ended it
    Broken(String, bool),
}

/// What a request comes to: its status (0 for none), its body, and whether the client gave it up.
pub fn reply_of(a: Answer) -> (r: (u16, String, bool))
    ensures
        match a {
            Answer::Served(code, body) => r.0 == code && r.1@ == body@ && !r.2,
            Answer::Broken(why, timed_out) => r.0 == 0 && r.1@ == "{\"error\":"@ + quoted_text(why@)
                + "}"@ && r.2 == timed_out,
        },
{
    match a {
        Answer::Served(code, body) => (code, body, false),
        Answer::Broken(why, timed_out) => {
            let mut s = "{\"error\":".to_owned();
            s.append(quoted(why.as_str()).as_str());
            s.append("}");
            (0, s, timed_out)
        },
    }
}

/// Requests that were sent at once, and those of them that are back.
pub struct Flight {
    pub sent: usize,
    pub back: Vec<Returned>,
}

/// What the wait for requests sees.
pub enum FlightEvent {
    Back(Returned),
    /// nothing came for a while: what stops the step, where something does
    Tick(Option<StepEnd>),
    /// nothing will come any more
    Gone,
}

/// How a wait for requests goes on.
pub enum FlightStep {
    Wait,
    Over,
    Stopped(StepEnd),
}

impl Flight {
    /// `sent` requests are on their way.
    pub fn new(sent: usize) -> (r: Flight)
        ensures
            r.sent == sent,
            r.back@.len() == 0,
    {
        Flight { sent, back: Vec::new() }
    }

    /// How the wait goes on: over once every request is back, or none will come; stopped by what the
    /// safety watch saw. A request that was sent cannot be called back.
    pub fn see(&mut self, e: FlightEvent) -> (r: FlightStep)
        ensures
            final(self).sent == old(self).sent,
            match e {
                FlightEvent::Back(x) => final(self).back@ == old(self).back@.push(x) && r == (if old(
                    self,
                ).back@.len() + 1 == old(self).sent {
                    FlightStep::Over
                } else {
                    FlightStep::Wait
                }),
                FlightEvent::Tick(None) => final(self).back@ == old(self).back@ && r is Wait,
                FlightEvent::Tick(Some(s)) => final(self).back@ == old(self).back@ && r
                    == FlightStep::Stopped(s),
                FlightEvent::Gone => final(self).back@ == old(self).back@ && r is Over,
            },
    {
        match e {
            FlightEvent::Back(x) => {
                self.back.push(x);
                if self.back.len() == self.sent {
                    FlightStep::Over
                } else {
                    FlightStep::Wait
                }
            },
            FlightEvent::Tick(stop) => match stop {
                Some(s) => FlightStep::Stopped(s),
                None => FlightStep::Wait,
            },
            FlightEvent::Gone => FlightStep::Over,
        }
    }

    /// How many of the requests still run on the engine: those that are back and were given up at
    /// their time limit. A step that was stopped knows of none.
    pub fn left_running(&self, stopped: bool, timeout_ms: u64) -> (r: u64)
        ensures
            r == (if stopped {
                0
            } else {
                abandoned_among(self.back@, timeout_ms)
            }),
    {
        if stopped {
            0
        } else {
            count_abandoned(&self.back, timeout_ms)
        }
    }
}

// ---------------------------------------------------------------- the harness

/// How a harness could not be started.
pub enum NoStart {
    /// its log cannot be written
    Log(String),
    /// its log cannot be shared
    LogTwice(String),
    /// the program, and why it does not run
    Program(String, String),
}

/// What a step says whose harness could not be started.
pub fn harness_not_started(dir: &str, n: &NoStart) -> (r: StepEnd)
    ensures
        end_view(r) == EndView::Failed(
            match *n {
                NoStart::Log(e) => "cannot write "@ + dir@ + "/harness.log: "@ + e@,
                NoStart::LogTwice(e) => "harness.log: "@ + e@,
                NoStart::Program(p, e) => "cannot start `"@ + p@ + "`: "@ + e@,
            },
        ),
{
    match n {
        NoStart::Log(e) => {
            let mut s = "cannot write ".to_owned();
            s.append(dir);
            s.append("/harness.log: ");
            s.append(e.as_str());
            StepEnd::Failed(s)
        },
        NoStart::LogTwice(e) => {
            let mut s = "harness.log: ".to_owned();
            s.append(e.as_str());
            StepEnd::Failed(s)
        },
        NoStart::Program(p, e) => {
            let mut s = "cannot start `".to_owned();
            s.append(p.as_str());
            s.append("`: ");
            s.append(e.as_str());
            StepEnd::Failed(s)
        },
    }
}

/// A look at a harness that was started.
pub enum HarnessSeen {
    Running,
    Succeeded,
    /// it ended otherwise: with which status
    Exited(String),
    /// it cannot be looked at: why
    Lost(String),
}

/// Whether a wait for the harness is over, and how: by its own end, or by what stops the step while
/// it still runs (it is killed then).
pub fn run_harness(seen: &HarnessSeen, stop: Option<StepEnd>, dir: &str) -> (r: Option<StepEnd>)
    ensures
        stop_view(r) == (match *seen {
            HarnessSeen::Running => stop_view(stop),
            HarnessSeen::Succeeded => Some(EndView::Done),
            HarnessSeen::Exited(status) => Some(
                EndView::Failed(
                    "the harness exited with "@ + status@ + ": see harness.log in "@ + dir@,
                ),
            ),
            HarnessSeen::Lost(e) => Some(EndView::Failed("waiting for the harness: "@ + e@)),
        }),
{
    match seen {
        HarnessSeen::Running => stop,
        HarnessSeen::Succeeded => Some(StepEnd::Done),
        HarnessSeen::Exited(status) => {
            let mut s = "the harness exited with ".to_owned();
            s.append(status.as_str());
            s.append(": see harness.log in ");
            s.append(dir);
            Some(StepEnd::Failed(s))
        },
        HarnessSeen::Lost(e) => {
            let mut s = "waiting for the harness: ".to_owned();
            s.append(e.as_str());
            Some(StepEnd::Failed(s))
        },
    }
}

// ---------------------------------------------------------------- results from the other machine

/// What became of the copy of a result.
pub enum Copied {
    /// it stands under its name
    Done,
    /// the file to copy into cannot be made: its path, and why
    NoFile(String, String),
    /// the copy cannot be started: the program, and why
    NoProgram(String, String),
    /// it took too long, and was ended
    Late,
    /// the other side ended otherwise: with which status
    Exited(String),
    /// something else of this machine failed: why
    Broken(String),
}

/// Why a copy failed.
pub open spec fn copy_fault(c: Copied) -> Option<Seq<char>> {
    match c {
        Copied::Done => None,
        Copied::NoFile(path, e) => Some(path@ + ": "@ + e@),
        Copied::NoProgram(p, e) => Some("cannot start `"@ + p@ + "`: "@ + e@),
        Copied::Late => Some("the copy did not finish in 5 minutes"@),
        Copied::Exited(status) => Some("`cat` on the far side exited with "@ + status@),
        Copied::Broken(e) => Some(e@),
    }
}

fn fault_of(c: &Copied) -> (r: Option<String>)
    ensures
        opt_view(r) == copy_fault(*c),
{
    match c {
        Copied::Done => None,
        Copied::NoFile(path, e) => {
            let mut s = path.clone();
            s.append(": ");
            s.append(e.as_str());
            Some(s)
        },
        Copied::NoProgram(p, e) => {
            let mut s = "cannot start `".to_owned();
            s.append(p.as_str());
            s.append("`: ");
            s.append(e.as_str());
            Some(s)
        },
        Copied::Late => Some("the copy did not finish in 5 minutes".to_owned()),
        Copied::Exited(status) => {
            let mut s = "`cat` on the far side exited with ".to_owned();
            s.append(status.as_str());
            Some(s)
        },
        Copied::Broken(e) => Some(e.clone()),
    }
}

/// What a copy of the result `file` into `dir` comes to, and whether the part that was copied is
/// removed.
pub fn fetch_remote(file: &str, dir: &str, c: &Copied) -> (r: (Result<(), String>, bool))
    ensures
        match r.0 {
            Ok(_) => *c is Done,
            Err(e) => copy_fault(*c) is Some && e@
                == "the harness ran over the ssh launcher, but its result "@ + file@
                + " could not be copied back: "@ + copy_fault(*c)->0 + " (see harness.log in "@ + dir@
                + ")"@,
        },
        r.1 == (*c is Late || *c is Exited),
{
    let drop_part = match c {
        Copied::Late => true,
        Copied::Exited(_) => true,
        _ => false,
    };
    match fault_of(c) {
        None => (Ok(()), drop_part),
        Some(e) => {
            let mut s = "the harness ran over the ssh launcher, but its result ".to_owned();
            s.append(file);
            s.append(" could not be copied back: ");
            s.append(e.as_str());
            s.append(" (see harness.log in ");
            s.append(dir);
            s.append(")");
            (Err(s), drop_part)
        },
    }
}

// ---------------------------------------------------------------- a run's token

/// A digit of base 16, in small letters.
pub open spec fn hex_digit(n: int) -> char {
    if n < 10 {
        (48 + n) as char
    } else {
        (87 + n) as char
    }
}

/// The last `n` digits of a number in base 16.
pub open spec fn hex_text(x: nat, n: nat) -> Seq<char>
    decreases n,
{
    if n == 0 {
        Seq::empty()
    } else {
        hex_text(x / 16, (n - 1) as nat).push(hex_digit(x as int % 16))
    }
}

/// The number a run's token writes: eight random bytes, or, without them, what the clock, the process
/// and a counter make of it.
pub open spec fn token_number(random: Option<[u8; 8]>, nanos: u64, pid: u32, seq: u64) -> nat {
    match random {
        Some(b) => bytes_value(b@, false),
        None => (nanos ^ ((pid as u64) << 32u64) ^ seq) as nat,
    }
}

fn hex_char(n: u64) -> (r: char)
    requires
        n < 16,
    ensures
        r == hex_digit(n as int),
{
    if n < 10 {
        (48 + n as u8) as char
    } else {
        (87 + n as u8) as char
    }
}

/// A run's token: sixteen digits of base 16, so that two runs never share a directory.
pub fn run_token(random: Option<[u8; 8]>, nanos: u64, pid: u32, seq: u64) -> (r: String)
    ensures
        r@ == hex_text(token_number(random, nanos, pid, seq), 16),
{
    let x: u64 = match random {
        Some(b) => crate::nvml::number_of(&b, 8, false),
        None => nanos ^ ((pid as u64) << 32u64) ^ seq,
    };
    proof {
        if let Some(b) = random {
            assert(b@.take(8) =~= b@);
        }
    }
    // the digits, the last first
    let mut digits: Vec<char> = Vec::new();
    let mut rest: u64 = x;
    let mut i: usize = 0;
    let ghost all = hex_text(x as nat, 16);
    proof {
        lemma_hex_len(x as nat, 16);
        assert(hex_text(rest as nat, 16) + Seq::<char>::empty() =~= all);
        assert(digits@.reverse() =~= Seq::<char>::empty());
    }
    while i < 16
        invariant
            i <= 16,
            digits@.len() == i,
            all == hex_text(x as nat, 16),
            hex_text(rest as nat, (16 - i) as nat) + digits@.reverse() == all,
        decreases 16 - i,
    {
        let ghost before = digits@;
        let ghost was = rest as nat;
        let d = hex_char(rest % 16);
        digits.push(d);
        rest = rest / 16;
        proof {
            let k = (16 - i) as nat;
            assert(hex_text(was, k) == hex_text(was / 16, (k - 1) as nat).push(d));
            assert(digits@.reverse() =~= seq![d] + before.reverse());
            assert(hex_text(was / 16, (k - 1) as nat) + digits@.reverse() =~= hex_text(was, k)
                + before.reverse());
        }
        i += 1;
    }
    let mut out = String::new();
    let mut k: usize = 16;
    assert(hex_text(rest as nat, 0) + digits@.reverse() =~= digits@.reverse());
    while k > 0
        invariant
            k <= 16,
            digits@.len() == 16,
            digits@.reverse() == all,
            out@ == all.take(16 - k),
        decreases k,
    {
        k -= 1;
        assert(all.take(16 - k) =~= all.take(15 - k).push(digits@[k as int]));
        out.push(digits[k]);
    }
    assert(all.take(16) =~= all);
    out
}

proof fn lemma_hex_len(x: nat, n: nat)
    ensures
        hex_text(x, n).len() == n,
    decreases n,
{
    if n > 0 {
        lemma_hex_len(x / 16, (n - 1) as nat);
    }
}

/// A power of sixteen.
pub open spec fn pow16(n: nat) -> nat
    decreases n,
{
    if n == 0 {
        1
    } else {
        16 * pow16((n - 1) as nat)
    }
}

/// Different numbers have different tokens.
pub proof fn law_tokens_differ(x: nat, y: nat, n: nat)
    requires
        x < pow16(n),
        y < pow16(n),
        hex_text(x, n) == hex_text(y, n),
    ensures
        x == y,
    decreases n,
{
    if n > 0 {
        let a = hex_text(x / 16, (n - 1) as nat);
        let b = hex_text(y / 16, (n - 1) as nat);
        assert(hex_text(x, n).drop_last() =~= a);
        assert(hex_text(y, n).drop_last() =~= b);
        assert(hex_text(x, n).last() == hex_digit(x as int % 16));
        assert(hex_text(y, n).last() == hex_digit(y as int % 16));
        assert(x % 16 == y % 16);
        law_tokens_differ(x / 16, y / 16, (n - 1) as nat);
    }
}

/// The steps are run one after the other from the first, as long as each was done, and no more than
/// were planned.
pub proof fn law_the_steps_follow_each_other(end: EndView, at: int, steps: int)
    ensures
        next_step(end, at, steps) is Some <==> end is Done && at < steps,
        next_step(end, at, steps) is Some ==> next_step(end, at, steps)->0 == at,
{
}

/// An answer to a question of the sanity check counts whatever its status is; of the texts that are
/// looked through only one that was served counts; and a needle that the gateway refuses as too large
/// is put to the engine itself, once, where its answer counts whatever it is.
pub proof fn law_a_refused_needle_goes_to_the_engine(direct: bool, code: u16)
    ensures
        heard(Questions::Sanity, direct, code) == Heard::Counts,
        heard(Questions::Garble, direct, code) == Heard::Counts <==> code == 200,
        heard(Questions::Garble, direct, code) == Heard::Left <==> code != 200,
        heard(Questions::Needle, true, code) == Heard::Counts,
        heard(Questions::Needle, false, code) == Heard::AskAgain <==> seq![400u16, 413, 429].contains(
            code,
        ),
        heard(Questions::Needle, false, code) == Heard::Counts <==> !seq![400u16, 413, 429].contains(
            code,
        ),
{
    let codes = seq![400u16, 413, 429];
    assert(codes[0] == 400 && codes[1] == 413 && codes[2] == 429);
}

/// While nothing stops a step and a question is left, that question is put, to the engine itself where
/// it is put again; else none is.
pub proof fn law_questions_are_put_in_turn(a: Asking)
    ensures
        a.question() is Some <==> a.stop is None && a.at < a.of,
        a.question() matches Some(q) ==> q.0 == a.at && q.1 == a.direct,
{
}

/// Every copy that was not made says why, in the words it came with, and only such a one does.
pub proof fn law_a_copy_that_failed_says_why(c: Copied)
    ensures
        copy_fault(c) is None <==> c is Done,
        c matches Copied::NoFile(path, e) ==> crate::text::starts(copy_fault(c)->0, path@)
            && crate::text::ends(copy_fault(c)->0, e@),
        c matches Copied::NoProgram(p, e) ==> crate::text::holds(copy_fault(c)->0, p@)
            && crate::text::ends(copy_fault(c)->0, e@),
        c matches Copied::Exited(status) ==> crate::text::ends(copy_fault(c)->0, status@),
        c matches Copied::Broken(e) ==> copy_fault(c)->0 == e@,
{
    match c {
        Copied::NoFile(path, e) => {
            let s = copy_fault(c)->0;
            assert(s.take(path@.len() as int) =~= path@);
            assert(s.skip(s.len() - e@.len()) =~= e@);
        },
        Copied::NoProgram(p, e) => {
            let s = copy_fault(c)->0;
            assert(s =~= "cannot start `"@ + p@ + ("`: "@ + e@));
            crate::text::lemma_stands_between("cannot start `"@, p@, "`: "@ + e@);
            assert(s.skip(s.len() - e@.len()) =~= e@);
        },
        Copied::Exited(status) => {
            let s = copy_fault(c)->0;
            assert(s.skip(s.len() - status@.len()) =~= status@);
        },
        _ => {},
    }
}

/// A token of `n` digits is `n` digits of base 16 in small letters; the last of them is the remainder
/// by sixteen.
pub proof fn law_a_token_is_written_in_base_16(x: nat, n: nat)
    ensures
        hex_text(x, n).len() == n,
        forall|i: int|
            0 <= i < n ==> '0' <= #[trigger] hex_text(x, n)[i] <= '9' || 'a' <= hex_text(x, n)[i]
                <= 'f',
        n > 0 && x % 16 < 10 ==> hex_text(x, n).last() as int == '0' as int + x % 16,
        n > 0 && x % 16 >= 10 ==> hex_text(x, n).last() as int == 'a' as int + x % 16 - 10,
    decreases n,
{
    lemma_hex_len(x, n);
    if n > 0 {
        law_a_token_is_written_in_base_16(x / 16, (n - 1) as nat);
        let before = hex_text(x / 16, (n - 1) as nat);
        assert forall|i: int| 0 <= i < n implies '0' <= #[trigger] hex_text(x, n)[i] <= '9' || 'a'
            <= hex_text(x, n)[i] <= 'f' by {
            if i < n - 1 {
                assert(hex_text(x, n)[i] == before[i]);
            }
        }
    }
}

/// Without random bytes, runs that one process starts in the same instant still have different
/// numbers, by their counter, and so have two processes at the same count.
pub proof fn law_a_counter_tells_runs_apart(nanos: u64, pid: u32, other: u32, a: u64, b: u64)
    ensures
        a != b ==> token_number(None, nanos, pid, a) != token_number(None, nanos, pid, b),
        pid != other ==> token_number(None, nanos, pid, a) != token_number(None, nanos, other, a),
{
    assert(a != b ==> nanos ^ ((pid as u64) << 32u64) ^ a != nanos ^ ((pid as u64) << 32u64) ^ b)
        by (bit_vector);
    assert(pid != other ==> nanos ^ ((pid as u64) << 32u64) ^ a != nanos ^ ((other as u64) << 32u64) ^ a)
        by (bit_vector);
}

/// A request that was served has its own status and body and was not given up; one that was broken has
/// no status, says why, and was given up where the client's own clock ended it.
pub proof fn law_a_broken_request_has_no_status(a: Answer, r: (u16, String, bool))
    requires
        call_ensures(reply_of, (a,), r),
    ensures
        a matches Answer::Served(code, body) ==> r.0 == code && r.1@ == body@ && !r.2,
        a matches Answer::Broken(why, late) ==> r.0 == 0 && r.2 == late && crate::text::holds(
            r.1@,
            quoted_text(why@),
        ),
{
    if let Answer::Broken(why, late) = a {
        crate::text::lemma_stands_between("{\"error\":"@, quoted_text(why@), "}"@);
    }
}

/// A harness that still runs is waited for until something stops the step; one that ended well is done,
/// and one that did not says with what. Only a step that was done and sent something lets the engine
/// settle, and only one that was not done stops the run.
pub proof fn law_a_harness_ends_its_step(
    seen: HarnessSeen,
    stop: Option<StepEnd>,
    dir: &str,
    r: Option<StepEnd>,
    end: StepEnd,
    dry_run: bool,
    settles: bool,
    stops: Option<StepEnd>,
)
    requires
        call_ensures(run_harness, (&seen, stop, dir), r),
        call_ensures(settles_after, (&end, dry_run), settles),
        call_ensures(stop_of, (end,), stops),
    ensures
        seen is Running ==> stop_view(r) == stop_view(stop),
        !(seen is Running) ==> r is Some,
        seen is Succeeded ==> stop_view(r) == Some(EndView::Done),
        (seen is Exited || seen is Lost) ==> (stop_view(r) matches Some(e) && e is Failed),
        seen matches HarnessSeen::Exited(status) ==> (stop_view(r) matches Some(EndView::Failed(why))
            && crate::text::holds(why, status@) && crate::text::ends(why, dir@)),
        settles <==> end is Done && !dry_run,
        stops is None <==> end is Done,
        stops is Some ==> stops->0 == end,
{
    if let HarnessSeen::Exited(status) = seen {
        let a = "the harness exited with "@;
        let b = ": see harness.log in "@ + dir@;
        let why = a + status@ + ": see harness.log in "@ + dir@;
        assert(why =~= a + status@ + b);
        crate::text::lemma_stands_between(a, status@, b);
        assert(why.skip(why.len() - dir@.len()) =~= dir@);
    }
}

/// A result was fetched where its copy was made, and else the step says which file and why; what was
/// half copied is removed.
pub proof fn law_a_half_copy_is_removed(
    file: &str,
    dir: &str,
    c: Copied,
    r: (Result<(), String>, bool),
)
    requires
        call_ensures(fetch_remote, (file, dir, &c), r),
    ensures
        r.0 is Ok <==> c is Done,
        r.1 <==> c is Late || c is Exited,
        r.0 matches Err(e) ==> crate::text::holds(e@, file@) && crate::text::holds(e@, copy_fault(c)->0),
{
    if let Err(e) = r.0 {
        let a = "the harness ran over the ssh launcher, but its result "@;
        let b = " could not be copied back: "@;
        let d = " (see harness.log in "@ + dir@ + ")"@;
        let f = copy_fault(c)->0;
        assert(e@ =~= a + file@ + (b + f + d));
        crate::text::lemma_stands_between(a, file@, b + f + d);
        assert(e@ =~= (a + file@ + b) + f + d);
        crate::text::lemma_stands_between(a + file@ + b, f, d);
    }
}

} // verus!
