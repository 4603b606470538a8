//! The decode probe: one streamed request, sent only to an idle engine, and judged by whether it ran
//! alone.

use crate::json::{quoted, quoted_text};
use crate::text::{dec, dec_u64, head, opt_view, same, take};
use vstd::prelude::*;
use vstd::string::*;

verus! {

/// A probe as it is stored. `F` is the type of its two measurements.
pub struct ProbeRecord<F> {
    pub ts: i64,
    pub status: String,
    pub ttft_ms: Option<F>,
    pub decode_tok_s: Option<F>,
    pub tokens: Option<u32>,
    pub detail: String,
    pub http_status: Option<u16>,
    pub valid: bool,
    pub invalid_reason: Option<String>,
    pub unverified: bool,
}

/// A probe as values.
pub struct ProbeView<F> {
    pub ts: i64,
    pub status: Seq<char>,
    pub ttft_ms: Option<F>,
    pub decode_tok_s: Option<F>,
    pub tokens: Option<u32>,
    pub detail: Seq<char>,
    pub http_status: Option<u16>,
    pub valid: bool,
    pub invalid_reason: Option<Seq<char>>,
    pub unverified: bool,
}

impl<F> View for ProbeRecord<F> {
    type V = ProbeView<F>;

    open spec fn view(&self) -> ProbeView<F> {
        ProbeView {
            ts: self.ts,
            status: self.status@,
            ttft_ms: self.ttft_ms,
            decode_tok_s: self.decode_tok_s,
            tokens: self.tokens,
            detail: self.detail@,
            http_status: self.http_status,
            valid: self.valid,
            invalid_reason: opt_view(self.invalid_reason),
            unverified: self.unverified,
        }
    }
}

/// Whether a probe is a reading: it completed, and nothing speaks against it.
pub open spec fn reading<F>(p: ProbeView<F>) -> bool {
    p.valid && p.status == "ok"@
}

/// A probe with a reason why it is no reading.
pub open spec fn invalidated<F>(p: ProbeView<F>, reason: Seq<char>, detail: Seq<char>) -> ProbeView<F> {
    ProbeView { valid: false, invalid_reason: Some(reason), detail, ..p }
}

/// A probe that came to nothing: no measurement, and its status is the reason.
pub open spec fn failed<F>(
    now: i64,
    status: Seq<char>,
    detail: Seq<char>,
    http_status: Option<u16>,
) -> ProbeView<F> {
    ProbeView {
        ts: now,
        status,
        ttft_ms: None,
        decode_tok_s: None,
        tokens: None,
        detail,
        http_status,
        valid: false,
        invalid_reason: Some(status),
        unverified: false,
    }
}

/// `timeout` for a failure past the deadline, else `error`.
pub open spec fn failure_name(late: bool) -> Seq<char> {
    if late {
        "timeout"@
    } else {
        "error"@
    }
}

fn failure_of(late: bool) -> (r: String)
    ensures
        r@ == failure_name(late),
{
    if late {
        "timeout".to_owned()
    } else {
        "error".to_owned()
    }
}

fn fail<F>(now: i64, status: String, detail: String, http_status: Option<u16>) -> (r: ProbeRecord<F>)
    ensures
        r@ == failed::<F>(now, status@, detail@, http_status),
{
    let reason = status.clone();
    ProbeRecord {
        ts: now,
        status,
        ttft_ms: None,
        decode_tok_s: None,
        tokens: None,
        detail,
        http_status,
        valid: false,
        invalid_reason: Some(reason),
        unverified: false,
    }
}

// --------------------------------------------------------------- the answer read

/// One line of a streamed answer, or its breaking off.
#[derive(Clone, Copy, PartialEq, Eq, Debug)]
pub enum SseEvent<F> {
    /// a token, and when it came
    Token(F),
    Usage(u32),
    Done,
    Other,
    /// the stream broke, and whether past the deadline
    Broke(bool),
}

/// What a stream came to: when its tokens came, how many tokens it says it had, and whether it broke
/// off (and then whether past the deadline).
pub struct StreamRead<F> {
    pub chunks: Vec<F>,
    pub usage: Option<u32>,
    pub broke: Option<bool>,
}

/// How many events of a stream are read: up to its end or its breaking off.
pub open spec fn read_len<F>(events: Seq<SseEvent<F>>) -> nat
    decreases events.len(),
{
    if events.len() == 0 || events[0] is Done || events[0] is Broke {
        0
    } else {
        1 + read_len(events.drop_first())
    }
}

/// When the tokens among the events came.
pub open spec fn tokens_of<F>(events: Seq<SseEvent<F>>) -> Seq<F>
    decreases events.len(),
{
    if events.len() == 0 {
        Seq::empty()
    } else {
        let before = tokens_of(events.drop_last());
        match events.last() {
            SseEvent::Token(at) => before.push(at),
            _ => before,
        }
    }
}

/// The last count of tokens among the events.
pub open spec fn usage_of<F>(events: Seq<SseEvent<F>>) -> Option<u32>
    decreases events.len(),
{
    if events.len() == 0 {
        None
    } else {
        match events.last() {
            SseEvent::Usage(n) => Some(n),
            _ => usage_of(events.drop_last()),
        }
    }
}

proof fn lemma_read_len<F>(events: Seq<SseEvent<F>>, i: int)
    requires
        0 <= i <= events.len(),
        forall|j: int| 0 <= j < i ==> !((#[trigger] events[j]) is Done) && !(events[j] is Broke),
        i < events.len() ==> events[i] is Done || events[i] is Broke,
    ensures
        read_len(events) == i,
    decreases events.len(),
{
    if i > 0 {
        let rest = events.drop_first();
        assert(!(events[0] is Done) && !(events[0] is Broke));
        assert forall|j: int| 0 <= j < i - 1 implies !((#[trigger] rest[j]) is Done) && !(
        rest[j] is Broke) by {
            assert(rest[j] == events[j + 1]);
        }
        lemma_read_len(rest, i - 1);
    }
}

/// Reads a streamed answer up to its end or its breaking off.
pub fn read_stream<F: Copy>(events: &Vec<SseEvent<F>>) -> (r: StreamRead<F>)
    ensures
        ({
            let n = read_len(events@) as int;
            let read = events@.take(n);
            &&& r.chunks@ == tokens_of(read)
            &&& r.usage == usage_of(read)
            &&& r.broke == (if n < events@.len() && events@[n] is Broke {
                Some(events@[n]->Broke_0)
            } else {
                None
            })
        }),
{
    let mut chunks: Vec<F> = Vec::new();
    let mut usage: Option<u32> = None;
    let mut broke: Option<bool> = None;
    let mut i: usize = 0;
    let mut over = false;
    while i < events.len() && !over
        invariant
            i <= events@.len(),
            forall|j: int|
                0 <= j < i ==> !((#[trigger] events@[j]) is Done) && !(events@[j] is Broke),
            chunks@ == tokens_of(events@.take(i as int)),
            usage == usage_of(events@.take(i as int)),
            over ==> i < events@.len() && (events@[i as int] is Done || events@[i as int] is Broke),
            broke == (if over && events@[i as int] is Broke {
                Some(events@[i as int]->Broke_0)
            } else {
                None
            }),
        decreases events@.len() - i + (if over { 0int } else { 1 }),
    {
        proof {
            assert(events@.take(i + 1).drop_last() =~= events@.take(i as int));
        }
        match events[i] {
            SseEvent::Token(at) => {
                chunks.push(at);
                i += 1;
            },
            SseEvent::Usage(n) => {
                usage = Some(n);
                i += 1;
            },
            SseEvent::Other => {
                i += 1;
            },
            SseEvent::Done => {
                over = true;
            },
            SseEvent::Broke(late) => {
                broke = Some(late);
                over = true;
            },
        }
    }
    proof {
        lemma_read_len(events@, i as int);
    }
    StreamRead { chunks, usage, broke }
}

/// A stream is read up to its end: of what stands before the first end or break every token counts, in
/// its order, the last count of tokens is the one that holds, and nothing behind it counts.
pub proof fn law_a_stream_is_read_to_its_end<F>(events: Seq<SseEvent<F>>, e: SseEvent<F>)
    ensures
        read_len(events) <= events.len(),
        forall|i: int|
            0 <= i < read_len(events) ==> !((#[trigger] events[i]) is Done) && !(events[i] is Broke),
        read_len(events) < events.len() ==> events[read_len(events) as int] is Done || events[read_len(
            events,
        ) as int] is Broke,
        tokens_of(Seq::<SseEvent<F>>::empty()) == Seq::<F>::empty(),
        tokens_of(events.push(e)) == (match e {
            SseEvent::Token(at) => tokens_of(events).push(at),
            _ => tokens_of(events),
        }),
        usage_of(Seq::<SseEvent<F>>::empty()) is None,
        usage_of(events.push(e)) == (match e {
            SseEvent::Usage(n) => Some(n),
            _ => usage_of(events),
        }),
    decreases events.len(),
{
    assert(events.push(e).drop_last() =~= events);
    if events.len() > 0 && !(events[0] is Done) && !(events[0] is Broke) {
        let rest = events.drop_first();
        law_a_stream_is_read_to_its_end(rest, e);
        assert forall|i: int| 0 <= i < read_len(events) implies !((#[trigger] events[i]) is Done) && !(
        events[i] is Broke) by {
            if i > 0 {
                assert(rest[i - 1] == events[i]);
            }
        }
        if read_len(events) < events.len() {
            assert(rest[read_len(rest) as int] == events[read_len(events) as int]);
        }
    }
}

/// What timing a stream comes to: its measurements, and why they are no speed where they are none.
pub struct Timed<F> {
    pub ttft_ms: F,
    pub decode_tok_s: F,
    pub tokens: u32,
    pub burst: Option<String>,
}

/// How the request went.
pub enum Sent<F> {
    /// another status than success
    Refused(u16),
    /// no answer: why, and whether past the deadline
    Unreachable(String, bool),
    /// an answer: its status, what was read of it, and its timing where it can be timed
    Answered(u16, StreamRead<F>, Option<Timed<F>>),
}

/// The reason of a reading that is no speed, as it is stored.
pub open spec fn burst_name() -> Seq<char> {
    "burst"@
}

/// What a request comes to as a probe.
pub open spec fn probe_of<F>(now: i64, sent: Sent<F>) -> ProbeView<F> {
    match sent {
        Sent::Refused(code) => failed(now, "error"@, "HTTP "@ + dec(code as nat), Some(code)),
        Sent::Unreachable(why, late) => failed(now, failure_name(late), head(why@, 120), None),
        Sent::Answered(code, read, timed) => match read.broke {
            Some(late) => failed(now, failure_name(late), "stream broke"@, Some(code)),
            None => match timed {
                None => failed(
                    now,
                    "error"@,
                    "stream too short to time ("@ + dec(read.chunks@.len()) + " chunks)"@,
                    Some(code),
                ),
                Some(t) => {
                    let ok = ProbeView {
                        ts: now,
                        status: "ok"@,
                        ttft_ms: Some(t.ttft_ms),
                        decode_tok_s: Some(t.decode_tok_s),
                        tokens: Some(t.tokens),
                        detail: Seq::empty(),
                        http_status: Some(code),
                        valid: true,
                        invalid_reason: None,
                        unverified: false,
                    };
                    match t.burst {
                        Some(why) => invalidated(ok, burst_name(), why@),
                        None => ok,
                    }
                },
            },
        },
    }
}

/// What a request comes to as a probe.
pub fn run_probe<F>(now: i64, sent: Sent<F>) -> (r: ProbeRecord<F>)
    ensures
        r@ == probe_of(now, sent),
{
    match sent {
        Sent::Refused(code) => {
            let mut d = "HTTP ".to_owned();
            d.append(dec_u64(code as u64).as_str());
            fail(now, "error".to_owned(), d, Some(code))
        },
        Sent::Unreachable(why, late) => fail(
            now,
            failure_of(late),
            take(why.as_str(), 120),
            None,
        ),
        Sent::Answered(code, read, timed) => {
            if let Some(late) = read.broke {
                return fail(now, failure_of(late), "stream broke".to_owned(), Some(code));
            }
            match timed {
                None => {
                    let mut d = "stream too short to time (".to_owned();
                    d.append(dec_u64(read.chunks.len() as u64).as_str());
                    d.append(" chunks)");
                    fail(now, "error".to_owned(), d, Some(code))
                },
                Some(t) => {
                    let mut r = ProbeRecord {
                        ts: now,
                        status: "ok".to_owned(),
                        ttft_ms: Some(t.ttft_ms),
                        decode_tok_s: Some(t.decode_tok_s),
                        tokens: Some(t.tokens),
                        detail: String::new(),
                        http_status: Some(code),
                        valid: true,
                        invalid_reason: None,
                        unverified: false,
                    };
                    if let Some(why) = t.burst {
                        r.valid = false;
                        r.invalid_reason = Some("burst".to_owned());
                        r.detail = why;
                    }
                    r
                },
            }
        },
    }
}

/// A probe is a reading exactly where it was answered, the stream was read to its end, it could be timed
/// and its answer did not come in one piece; it then holds what was timed. A probe that came to nothing
/// holds no measurement, and a refusal holds its status.
pub proof fn law_a_probe_holds_what_was_timed<F>(now: i64, sent: Sent<F>)
    ensures
        ({
            let p = probe_of(now, sent);
            &&& p.ts == now
            &&& !p.unverified
            &&& reading(p) <==> (sent matches Sent::Answered(_, read, Some(t)) && read.broke is None
                && t.burst is None)
            &&& sent matches Sent::Answered(code, read, timed) ==> {
                &&& p.http_status == Some(code)
                &&& read.broke is None && timed is Some ==> p.status == "ok"@ && p.ttft_ms == Some(
                    (timed->0).ttft_ms,
                ) && p.decode_tok_s == Some((timed->0).decode_tok_s) && p.tokens == Some(
                    (timed->0).tokens,
                )
                &&& read.broke is None && timed is Some && (timed->0).burst is Some ==> !p.valid
                    && p.invalid_reason == Some("burst"@) && p.detail == ((timed->0).burst->0)@
                &&& read.broke is Some ==> p.status == (if read.broke->0 {
                    "timeout"@
                } else {
                    "error"@
                })
                &&& read.broke is None && timed is None ==> p.status == "error"@
            }
            &&& sent matches Sent::Refused(code) ==> p.http_status == Some(code) && p.status == "error"@
            &&& sent matches Sent::Unreachable(why, late) ==> p.http_status is None && p.status == (
            if late {
                "timeout"@
            } else {
                "error"@
            })
            &&& p.status != "ok"@ ==> p.ttft_ms is None && p.decode_tok_s is None && p.tokens is None
                && !p.valid && p.invalid_reason == Some(p.status)
        }),
{
    reveal_strlit("ok");
    reveal_strlit("error");
    reveal_strlit("timeout");
    assert("ok"@.len() == 2 && "error"@.len() == 5 && "timeout"@.len() == 7);
}

// ------------------------------------------------------------------ the judgment

/// What the evidence around a probe says.
pub enum Verdict {
    RanAlone,
    /// it may have: what was not proved
    CouldNotRuleOut(String),
    /// it did not: the reason, and the detail
    Contended(String, String),
}

/// A probe judged. One that did not complete is no reading, by its status; one that did not run
/// alone is none, by that reason; one that may have is a reading that says what was not proved.
pub open spec fn judged<F>(p: ProbeView<F>, v: Verdict, note: Seq<char>) -> ProbeView<F> {
    if p.status != "ok"@ {
        ProbeView { valid: false, invalid_reason: Some(p.status), ..p }
    } else {
        match v {
            Verdict::RanAlone => p,
            Verdict::CouldNotRuleOut(why) => ProbeView {
                unverified: true,
                detail: note + ": "@ + why@,
                ..p
            },
            Verdict::Contended(reason, detail) => invalidated(p, reason@, detail@),
        }
    }
}

/// A probe judged. One that did not complete is no reading, by its status; one that did not run
/// alone is none, by that reason; one that may have is a reading that says what was not proved.
pub fn run_validated_probe<F>(p: ProbeRecord<F>, v: Verdict, note: &str) -> (r: ProbeRecord<F>)
    ensures
        r@ == judged(p@, v, note@),
{
    let mut r = p;
    if !same(r.status.as_str(), "ok") {
        r.valid = false;
        r.invalid_reason = Some(r.status.clone());
        return r;
    }
    match v {
        Verdict::RanAlone => {},
        Verdict::CouldNotRuleOut(why) => {
            let mut d = note.to_owned();
            d.append(": ");
            d.append(why.as_str());
            r.unverified = true;
            r.detail = d;
        },
        Verdict::Contended(reason, detail) => {
            r.valid = false;
            r.invalid_reason = Some(reason);
            r.detail = detail;
        },
    }
    r
}

/// A probe that something else ran beside is never a reading, and a probe that is no reading says
/// why; judging never makes a reading of a probe that was none, and never changes what was measured.
pub proof fn law_only_a_probe_alone_is_a_reading<F>(now: i64, sent: Sent<F>, v: Verdict, note: Seq<char>)
    ensures
        ({
            let p = probe_of(now, sent);
            let j = judged(p, v, note);
            &&& v is Contended ==> !reading(j)
            &&& reading(j) ==> reading(p) && j.invalid_reason is None
            &&& !j.valid ==> j.invalid_reason is Some
            &&& j.valid ==> j.status == "ok"@
            &&& j.ttft_ms == p.ttft_ms && j.decode_tok_s == p.decode_tok_s && j.tokens == p.tokens
            &&& reading(j) && !(v is RanAlone) ==> j.unverified
        }),
{
    reveal_strlit("ok");
    reveal_strlit("error");
    reveal_strlit("timeout");
    assert("ok"@.len() == 2 && "error"@.len() == 5 && "timeout"@.len() == 7);
}

/// What the evidence does to a probe: one that ran alone stays as it is; one that may not have is a
/// reading that is marked, and says what was not proved; one that did not is none, with its reason. One
/// that did not complete is none whatever the evidence, with its own status as the reason.
pub proof fn law_the_evidence_decides<F>(p: ProbeView<F>, v: Verdict, note: Seq<char>)
    ensures
        ({
            let j = judged(p, v, note);
            &&& j.ts == p.ts && j.status == p.status && j.http_status == p.http_status
            &&& p.status != "ok"@ ==> !j.valid && j.invalid_reason == Some(p.status)
            &&& p.status == "ok"@ ==> match v {
                Verdict::RanAlone => j == p,
                Verdict::CouldNotRuleOut(why) => j.unverified && j.valid == p.valid && j.invalid_reason
                    == p.invalid_reason && crate::text::ends(j.detail, why@) && crate::text::starts(
                    j.detail,
                    note,
                ),
                Verdict::Contended(reason, detail) => !j.valid && j.invalid_reason == Some(reason@)
                    && j.detail == detail@,
            }
        }),
{
    if let Verdict::CouldNotRuleOut(why) = v {
        let d = note + ": "@ + why@;
        assert(d.take(note.len() as int) =~= note);
        assert(d.skip(d.len() - why@.len()) =~= why@);
    }
}

/// Whether the engine has counted the probe's own request, so that its counters can be read: the
/// count of requests has grown, or the engine keeps none, or it was waited for long enough.
pub fn settled_load(before: Option<u64>, now: Option<u64>, elapsed_ms: u64) -> (r: bool)
    ensures
        r == (match (before, now) {
            (Some(b), Some(a)) => a >= b + 1,
            _ => true,
        } || elapsed_ms >= 2000),
{
    let counted = match before {
        Some(b) => match now {
            Some(a) => a > b,
            None => true,
        },
        None => true,
    };
    counted || elapsed_ms >= 2000
}

/// The requests that the gateway has admitted, over both its lanes; nothing where there is no
/// gateway or its page was not read.
pub fn gate_admitted(has_gate: bool, lanes: Option<(u64, u64)>) -> (r: Option<u64>)
    requires
        lanes matches Some(l) ==> l.0 + l.1 <= u64::MAX,
    ensures
        r == (match lanes {
            Some(l) if has_gate => Some((l.0 + l.1) as u64),
            _ => None,
        }),
{
    if !has_gate {
        return None;
    }
    match lanes {
        Some(l) => Some(l.0 + l.1),
        None => None,
    }
}

/// How busy the engine was after a probe, where it says so.
pub fn load_after<F: Copy>(after: Option<(F, F, bool)>) -> (r: (Option<F>, Option<F>, bool))
    ensures
        r == (match after {
            Some(l) => if l.2 {
                (Some(l.0), Some(l.1), true)
            } else {
                (None, None, false)
            },
            None => (None::<F>, None::<F>, true),
        }),
{
    match after {
        Some(l) => if l.2 {
            (Some(l.0), Some(l.1), true)
        } else {
            (None, None, false)
        },
        None => (None, None, true),
    }
}

// ---------------------------------------------------------------------- the loop

/// What the interval and the last sample say.
#[derive(Clone, Copy, PartialEq, Eq, Structural, Debug)]
pub enum ProbeDecision {
    Run,
    SkipBusy,
    NotDue,
    InFlight,
    SkipDown,
}

/// What the probe's thread does.
#[derive(Clone, Copy, PartialEq, Eq, Structural, Debug)]
pub enum ProbeTurn {
    /// nothing, and the attempt does not count
    Wait,
    /// it looks at the engine again right before it sends
    Look,
    /// it stores that the engine was busy
    StoreBusy,
    /// it sends
    Send,
}

/// What a turn of the thread begins with. While a benchmark runs nothing is sent and nothing counts
/// as an attempt.
pub open spec fn first_turn(bench_active: bool, d: ProbeDecision) -> ProbeTurn {
    if bench_active {
        ProbeTurn::Wait
    } else {
        match d {
            ProbeDecision::Run => ProbeTurn::Look,
            ProbeDecision::SkipBusy => ProbeTurn::StoreBusy,
            _ => ProbeTurn::Wait,
        }
    }
}

/// What a turn of the thread begins with. While a benchmark runs nothing is sent and nothing counts
/// as an attempt.
pub fn turn(bench_active: bool, d: ProbeDecision) -> (r: ProbeTurn)
    ensures
        r == first_turn(bench_active, d),
{
    if bench_active {
        return ProbeTurn::Wait;
    }
    match d {
        ProbeDecision::Run => ProbeTurn::Look,
        ProbeDecision::SkipBusy => ProbeTurn::StoreBusy,
        ProbeDecision::NotDue => ProbeTurn::Wait,
        ProbeDecision::InFlight => ProbeTurn::Wait,
        ProbeDecision::SkipDown => ProbeTurn::Wait,
    }
}

/// What follows the second look: `busy` says whether the engine was, where it answered.
pub open spec fn second_turn(busy: Option<bool>, has_model: bool) -> ProbeTurn {
    match busy {
        Some(true) => ProbeTurn::StoreBusy,
        Some(false) if has_model => ProbeTurn::Send,
        _ => ProbeTurn::Wait,
    }
}

/// What follows the second look: `busy` says whether the engine was, where it answered.
pub fn after_look(busy: Option<bool>, has_model: bool) -> (r: ProbeTurn)
    ensures
        r == second_turn(busy, has_model),
{
    match busy {
        Some(true) => ProbeTurn::StoreBusy,
        Some(false) => if has_model {
            ProbeTurn::Send
        } else {
            ProbeTurn::Wait
        },
        None => ProbeTurn::Wait,
    }
}

/// A probe is sent only where no benchmark runs, the interval is over, and the engine was found idle
/// in the look right before it.
pub proof fn law_probe_only_an_idle_engine(
    bench_active: bool,
    d: ProbeDecision,
    busy: Option<bool>,
    has_model: bool,
)
    ensures
        first_turn(bench_active, d) != ProbeTurn::Send,
        first_turn(bench_active, d) == ProbeTurn::StoreBusy <==> !bench_active && d
            == ProbeDecision::SkipBusy,
        second_turn(busy, has_model) == ProbeTurn::StoreBusy <==> busy == Some(true),
        second_turn(busy, has_model) != ProbeTurn::Look,
        first_turn(bench_active, d) == ProbeTurn::Look <==> !bench_active && d
            == ProbeDecision::Run,
        second_turn(busy, has_model) == ProbeTurn::Send <==> busy == Some(false) && has_model,
{
}

/// The body of a probe's request.
pub open spec fn body_text(model: Seq<char>, prompt: Seq<char>, max_tokens: nat, user: Seq<char>) -> Seq<
    char,
> {
    "{\"max_tokens\":"@ + dec(max_tokens) + ",\"messages\":[{\"content\":"@ + quoted_text(prompt)
        + ",\"role\":\"user\"}],\"model\":"@ + quoted_text(model)
        + ",\"stream\":true,\"stream_options\":{\"include_usage\":true},\"temperature\":0,\"user\":"@
        + quoted_text(user) + "}"@
}

/// The body of a probe's request. `user` marks it as the monitor's own.
pub fn probe_body(model: &str, prompt: &str, max_tokens: u32, user: &str) -> (r: String)
    ensures
        r@ == body_text(model@, prompt@, max_tokens as nat, user@),
{
    let mut s = "{\"max_tokens\":".to_owned();
    s.append(dec_u64(max_tokens as u64).as_str());
    s.append(",\"messages\":[{\"content\":");
    s.append(quoted(prompt).as_str());
    s.append(",\"role\":\"user\"}],\"model\":");
    s.append(quoted(model).as_str());
    s.append(
        ",\"stream\":true,\"stream_options\":{\"include_usage\":true},\"temperature\":0,\"user\":",
    );
    s.append(quoted(user).as_str());
    s.append("}");
    s
}

/// A probe's request carries its own prompt, model, limit and user, and asks for a stream with its
/// counts at the end.
pub proof fn law_a_request_carries_its_prompt(
    model: Seq<char>,
    prompt: Seq<char>,
    max_tokens: nat,
    user: Seq<char>,
)
    ensures
        ({
            let body = body_text(model, prompt, max_tokens, user);
            &&& crate::text::holds(body, "\"max_tokens\":"@ + dec(max_tokens) + ","@)
            &&& crate::text::holds(body, "\"content\":"@ + quoted_text(prompt))
            &&& crate::text::holds(body, "\"model\":"@ + quoted_text(model))
            &&& crate::text::holds(body, "\"user\":"@ + quoted_text(user))
            &&& crate::text::holds(
                body,
                "\"stream\":true,\"stream_options\":{\"include_usage\":true}"@,
            )
        }),
{
    let body = body_text(model, prompt, max_tokens, user);
    let a = "{\"max_tokens\":"@;
    let b = ",\"messages\":[{\"content\":"@;
    let c = ",\"role\":\"user\"}],\"model\":"@;
    let d = ",\"stream\":true,\"stream_options\":{\"include_usage\":true},\"temperature\":0,\"user\":"@;
    let e = "}"@;
    reveal_strlit("{\"max_tokens\":");
    reveal_strlit(",\"messages\":[{\"content\":");
    reveal_strlit(",\"role\":\"user\"}],\"model\":");
    reveal_strlit(
        ",\"stream\":true,\"stream_options\":{\"include_usage\":true},\"temperature\":0,\"user\":",
    );
    reveal_strlit("\"max_tokens\":");
    reveal_strlit(",");
    reveal_strlit("\"content\":");
    reveal_strlit("\"model\":");
    reveal_strlit("\"user\":");
    reveal_strlit("\"stream\":true,\"stream_options\":{\"include_usage\":true}");
    let t = dec(max_tokens);
    let q = quoted_text(prompt);
    let m = quoted_text(model);
    let u = quoted_text(user);
    let p1 = "\"max_tokens\":"@ + t + ","@;
    assert(a =~= a.take(1) + "\"max_tokens\":"@);
    assert(b =~= ","@ + b.skip(1));
    assert(body =~= a.take(1) + p1 + (b.skip(1) + q + c + m + d + u + e));
    crate::text::lemma_stands_between(a.take(1), p1, b.skip(1) + q + c + m + d + u + e);
    let p2 = "\"content\":"@ + q;
    let nb = b.len() - 10;
    assert(b =~= b.take(nb) + "\"content\":"@);
    assert(body =~= (a + t + b.take(nb)) + p2 + (c + m + d + u + e));
    crate::text::lemma_stands_between(a + t + b.take(nb), p2, c + m + d + u + e);
    let p3 = "\"model\":"@ + m;
    let nc = c.len() - 8;
    assert(c =~= c.take(nc) + "\"model\":"@);
    assert(body =~= (a + t + b + q + c.take(nc)) + p3 + (d + u + e));
    crate::text::lemma_stands_between(a + t + b + q + c.take(nc), p3, d + u + e);
    let p4 = "\"user\":"@ + u;
    let nd = d.len() - 7;
    assert(d =~= d.take(nd) + "\"user\":"@);
    assert(body =~= (a + t + b + q + c + m + d.take(nd)) + p4 + e);
    crate::text::lemma_stands_between(a + t + b + q + c + m + d.take(nd), p4, e);
    let p5 = "\"stream\":true,\"stream_options\":{\"include_usage\":true}"@;
    let n5 = 1 + p5.len() as int;
    assert(d.subrange(1, n5) =~= p5);
    assert(d =~= d.take(1) + p5 + d.skip(n5));
    let front = a + t + b + q + c + m + d.take(1);
    assert(body =~= front + p5 + (d.skip(n5) + u + e));
    crate::text::lemma_stands_between(front, p5, d.skip(n5) + u + e);
}

/// A probe that failed past its deadline ran out of time, and any other failed for another reason.
pub proof fn law_a_late_failure_is_a_timeout(late: bool)
    ensures
        failure_name(late) == "timeout"@ <==> late,
        failure_name(late) == "error"@ <==> !late,
{
    reveal_strlit("timeout");
    reveal_strlit("error");
    assert("error"@.len() < "timeout"@.len());
}

/// The load after a probe is settled once the counter has moved, once there is none to wait for, or
/// after two seconds. The gateway's admissions are those of both lanes, where there is a gateway and it
/// told them. A load that was not read is no load of nothing.
pub proof fn law_a_load_is_settled_when_it_moved<F: Copy>(
    before: Option<u64>,
    now: Option<u64>,
    elapsed_ms: u64,
    settled: bool,
    has_gate: bool,
    lanes: Option<(u64, u64)>,
    admitted: Option<u64>,
    after: Option<(F, F, bool)>,
    load: (Option<F>, Option<F>, bool),
)
    requires
        lanes matches Some(l) ==> l.0 + l.1 <= u64::MAX,
        call_ensures(settled_load, (before, now, elapsed_ms), settled),
        call_ensures(gate_admitted, (has_gate, lanes), admitted),
        call_ensures(load_after::<F>, (after,), load),
    ensures
        elapsed_ms >= 2000 ==> settled,
        before is None || now is None ==> settled,
        elapsed_ms < 2000 && before is Some && now is Some ==> (settled <==> now->0 > before->0),
        admitted is Some <==> has_gate && lanes is Some,
        admitted is Some ==> admitted->0 == (lanes->0).0 + (lanes->0).1,
        after matches Some(l) ==> (l.2 ==> load == (Some(l.0), Some(l.1), true)) && (!l.2 ==> load == (
            None::<F>,
            None::<F>,
            false,
        )),
        after is None ==> load == (None::<F>, None::<F>, true),
{
}

} // verus!
