//! The poll loop: what it starts from, and what each turn of it owes.
//!
//! The loop itself reads the machine and the database. Here stands what it decides: which windows
//! open and close, which of the slower jobs are due, and from which instants the stored rows count.

use crate::bench_run::GateUser;
use crate::db::Retention;
use crate::text::{dec, dec_u64, opt_view, same, trim, trimmed, views};
use vstd::prelude::*;
use vstd::string::*;

verus! {

/// Seconds in a day.
pub const DAY: i64 = 86_400;

/// The kernel journal is read back this far at most.
pub const BACKFILL_SECS: i64 = 604_800;

/// Whether `secs` have passed between `since` and `now`.
pub open spec fn due(now: i64, since: i64, secs: int) -> bool {
    now - since >= secs
}

/// Whether `secs` have passed between `since` and `now`.
pub fn is_due(now: i64, since: i64, secs: i64) -> (r: bool)
    ensures
        r == due(now, since, secs as int),
{
    now as i128 - since as i128 >= secs as i128
}

/// The larger of two instants.
pub open spec fn later(a: int, b: int) -> int {
    if a >= b {
        a
    } else {
        b
    }
}

/// The larger of two instants.
pub fn later_of(a: i64, b: i64) -> (r: i64)
    ensures
        r == later(a as int, b as int),
{
    if a >= b {
        a
    } else {
        b
    }
}

// ------------------------------------------------------------------- start-up

/// How long each tier of rows is kept, from the hours and days of the configuration.
pub fn retention_of(raw_hours: u32, retention_days: u32, rollup_10m_days: u32) -> (r: Retention)
    ensures
        r.raw == raw_hours * 3600,
        r.m1 == retention_days * 86_400,
        r.m10 == rollup_10m_days * 86_400,
{
    Retention {
        raw: raw_hours as i64 * 3600,
        m1: retention_days as i64 * 86_400,
        m10: rollup_10m_days as i64 * 86_400,
    }
}

/// The start of the bucket of `width` seconds that `t` falls into.
pub open spec fn bucket_start(t: int, width: int) -> int {
    t - t % width
}

/// The start of the bucket of `width` seconds that `t` falls into.
pub fn floor_to(t: i64, width: i64) -> (r: i64)
    requires
        width > 0,
        bucket_start(t as int, width as int) >= i64::MIN,
    ensures
        r == bucket_start(t as int, width as int),
        r <= t < r + width,
        r as int % width as int == 0,
{
    let t128: i128 = t as i128;
    let w128: i128 = width as i128;
    let rem: i128 = if t128 >= 0 {
        t128 % w128
    } else {
        let m: i128 = (-t128) % w128;
        if m == 0 {
            0
        } else {
            w128 - m
        }
    };
    proof {
        vstd::arithmetic::div_mod::lemma_fundamental_div_mod(t as int, width as int);
        let q = t as int / width as int;
        if t < 0 {
            let n = -(t as int);
            vstd::arithmetic::div_mod::lemma_fundamental_div_mod(n, width as int);
            let qn = n / width as int;
            let m = n % width as int;
            if m == 0 {
                assert(t as int == width as int * (-qn) + 0) by (nonlinear_arith)
                    requires
                        n == width as int * qn + m,
                        m == 0,
                        n == -(t as int),
                ;
                vstd::arithmetic::div_mod::lemma_fundamental_div_mod_converse(
                    t as int,
                    width as int,
                    -qn,
                    0,
                );
            } else {
                assert(t as int == width as int * (-qn - 1) + (width - m)) by (nonlinear_arith)
                    requires
                        n == width as int * qn + m,
                        n == -(t as int),
                ;
                vstd::arithmetic::div_mod::lemma_fundamental_div_mod_converse(
                    t as int,
                    width as int,
                    -qn - 1,
                    width - m,
                );
            }
        }
        assert(rem == t as int % width as int);
        let s = bucket_start(t as int, width as int);
        assert(s == width as int * (t as int / width as int));
        assert(s % width as int == 0) by {
            vstd::arithmetic::div_mod::lemma_mod_multiples_basic(q, width as int);
            vstd::arithmetic::mul::lemma_mul_is_commutative(q, width as int);
        }
        vstd::arithmetic::div_mod::lemma_mod_bound(t as int, width as int);
    }
    (t128 - rem) as i64
}

/// Where the journal's back-fill starts: at one that was never finished, else where the scan had
/// come to, but never more than seven days before the start.
pub open spec fn backfill_start(owed: Option<i64>, scanned: Option<i64>, started_at: i64) -> int {
    let from = match (owed, scanned) {
        (Some(t), _) => t as int,
        (None, Some(t)) => t as int,
        (None, None) => 0,
    };
    later(from, started_at - BACKFILL_SECS)
}

/// The back-fill reads everything that is owed of the last seven days and nothing before them: from the
/// start of one that was never finished, and without one from where the scan had come to.
pub proof fn law_the_backfill_reads_what_is_owed(
    owed: Option<i64>,
    scanned: Option<i64>,
    started_at: i64,
    t: int,
)
    ensures
        t >= backfill_start(owed, scanned, started_at) <==> t >= started_at - 604_800 && (match owed {
            Some(from) => t >= from,
            None => match scanned {
                Some(from) => t >= from,
                None => t >= 0,
            },
        }),
{
}

/// Where the journal's back-fill starts: at one that was never finished, else where the scan had
/// come to, but never more than seven days before the start.
pub fn backfill_from(owed: Option<i64>, scanned: Option<i64>, started_at: i64) -> (r: i64)
    requires
        started_at - BACKFILL_SECS >= i64::MIN,
    ensures
        r == backfill_start(owed, scanned, started_at),
{
    let from: i64 = match owed {
        Some(t) => t,
        None => match scanned {
            Some(t) => t,
            None => 0,
        },
    };
    later_of(from, started_at - BACKFILL_SECS)
}

/// Since when the collector has watched: the stored mark, else the first stored sample, else the
/// start. The second part is the mark to store, where there was none.
pub fn first_seen(mark: Option<i64>, first_sample: Option<i64>, started_at: i64) -> (r: (
    i64,
    Option<i64>,
))
    ensures
        mark is Some ==> r == (mark->0, None::<i64>),
        mark is None && first_sample is Some ==> r == (first_sample->0, first_sample),
        mark is None && first_sample is None ==> r == (started_at, Some(started_at)),
{
    match mark {
        Some(t) => (t, None),
        None => {
            let t: i64 = match first_sample {
                Some(t) => t,
                None => started_at,
            };
            (t, Some(t))
        },
    }
}

/// A stored benchmark run, as far as the start reads it.
pub struct RunRow {
    pub status: String,
    pub profile: String,
}

/// Whether a run is one to show as the last: it has ended, and it measured something.
pub open spec fn is_shown_run(r: RunRow) -> bool {
    r.status@ != "running"@ && r.profile@ != "dry-run"@
}

/// The newest run to show: the first in a list that is newest first.
pub fn last_bench_run(runs: &Vec<RunRow>) -> (r: Option<usize>)
    ensures
        match r {
            Some(i) => i < runs@.len() && is_shown_run(runs@[i as int]) && forall|j: int|
                0 <= j < i ==> !is_shown_run(#[trigger] runs@[j]),
            None => forall|j: int| 0 <= j < runs@.len() ==> !is_shown_run(#[trigger] runs@[j]),
        },
{
    let mut i: usize = 0;
    while i < runs.len()
        invariant
            i <= runs@.len(),
            forall|j: int| 0 <= j < i ==> !is_shown_run(#[trigger] runs@[j]),
        decreases runs@.len() - i,
    {
        if !same(runs[i].status.as_str(), "running") && !same(runs[i].profile.as_str(), "dry-run") {
            return Some(i);
        }
        i += 1;
    }
    None
}

// ------------------------------------------------------------------- one turn

/// What the loop carries from one turn to the next.
pub struct Cycle {
    /// how many requests the engine serves at once, 0 while that is not known
    pub slots: u32,
    /// whether the engine answered in the last turn
    pub was_up: bool,
    /// whether the incident that marks a benchmark is open
    pub bench_open: bool,
    /// the count of finished benchmarks that the loadouts have read
    pub bench_generation: u64,
    /// whether the incident that marks a maintenance is open
    pub maintenance_open: bool,
    pub last_flush: i64,
    pub last_scan_mark: i64,
    pub last_prune: i64,
    /// when the gateway started, and how many probes it has admitted since
    pub probe_share: Option<(i64, u64)>,
    pub own_probes_at: i64,
    pub tokens_at: i64,
    pub advice_at: i64,
    pub user_log_at: i64,
    pub ledger_saved_at: i64,
}

impl Cycle {
    /// The state before the first turn.
    pub fn new(started_at: i64, slots: u32) -> (r: Cycle)
        ensures
            r.slots == slots,
            !r.was_up && !r.bench_open && !r.maintenance_open,
            r.bench_generation == 0,
            r.last_flush == started_at,
            r.last_scan_mark == 0 && r.last_prune == 0 && r.own_probes_at == 0 && r.tokens_at == 0
                && r.advice_at == 0 && r.user_log_at == 0 && r.ledger_saved_at == 0,
            r.probe_share is None,
    {
        Cycle {
            slots,
            was_up: false,
            bench_open: false,
            bench_generation: 0,
            maintenance_open: false,
            last_flush: started_at,
            last_scan_mark: 0,
            last_prune: 0,
            probe_share: None,
            own_probes_at: 0,
            tokens_at: 0,
            advice_at: 0,
            user_log_at: 0,
            ledger_saved_at: 0,
        }
    }

    /// Whether this turn asks the engine for its slots: it is up, the configuration does not say
    /// them, and either they are not known yet or the engine has just come up.
    pub fn asks_slots(&self, serve_up: bool, configured: u32) -> (r: bool)
        ensures
            r == (serve_up && configured == 0 && (!self.was_up || self.slots == 0)),
    {
        serve_up && (!self.was_up || self.slots == 0) && configured == 0
    }

    /// Books what the engine answered, if it was asked, and that it was up or down.
    pub fn saw_engine(&mut self, serve_up: bool, answer: Option<u32>)
        ensures
            *final(self) == (Cycle {
                slots: match answer {
                    Some(n) => n,
                    None => old(self).slots,
                },
                was_up: serve_up,
                ..*old(self)
            }),
    {
        if let Some(n) = answer {
            self.slots = n;
        }
        self.was_up = serve_up;
    }
}

/// What one turn has seen, as far as the loop's own decisions read it.
pub struct Turn {
    pub now: i64,
    pub bench_active: bool,
    pub bench_generation: u64,
    pub bench_profile: Option<String>,
    pub maintenance_active: bool,
    pub maintenance_reason: String,
    /// whether the kernel journal was read
    pub journal_ok: bool,
    /// when the gateway's container started, where that is known
    pub gate_started: Option<i64>,
    /// whether the probe thread left results
    pub has_probe_results: bool,
    /// whether the engine's metrics were read
    pub has_metrics: bool,
    /// since when the gateway has known the probe's address
    pub gate_knows_since: i64,
    /// seconds between two flushes of the alert spool, 0 for none
    pub flush_secs: u64,
}

/// What becomes of an incident that marks a window.
pub enum WindowOp {
    Open(String),
    Close,
}

/// What becomes of the count of admitted probes.
#[derive(Clone, Copy, PartialEq, Eq, Structural, Debug)]
pub enum Share {
    Keep,
    Drop,
    CountSince(i64),
}

/// What a turn owes.
pub struct Plan {
    pub bench: Option<WindowOp>,
    pub maintenance: Option<WindowOp>,
    pub reload_bench: bool,
    pub flush: bool,
    pub mark_scan: bool,
    pub share: Share,
    pub save_ledger: bool,
    /// from when on the probes of the last hour and of the last day are counted
    pub own_probes: Option<(i64, i64)>,
    pub prune: bool,
    pub tokens: bool,
    pub advice: bool,
    /// the gateway's log from here to the last part is merged for the users' table
    pub user_log: Option<(i64, i64)>,
}

/// The line of the incident that marks a benchmark.
pub open spec fn bench_detail(profile: Option<Seq<char>>) -> Seq<char> {
    "lss bench "@ + (match profile {
        Some(p) => p,
        None => Seq::empty(),
    }) + " running: the load is the benchmark's; queue and C1 alerts stand down"@
}

/// The line of the incident that marks a maintenance.
pub open spec fn maintenance_detail(reason: Seq<char>) -> Seq<char> {
    "planned maintenance: "@ + reason
}

/// Whether a window's incident is open after `op`.
pub open spec fn open_after(op: Option<WindowOp>, before: bool) -> bool {
    match op {
        Some(WindowOp::Open(_)) => true,
        Some(WindowOp::Close) => false,
        None => before,
    }
}

/// What is done to a window's incident: it is opened with `detail` when the window begins, closed
/// when it ends, and left alone between.
pub open spec fn is_window_op(
    op: Option<WindowOp>,
    open: bool,
    active: bool,
    detail: Seq<char>,
) -> bool {
    match op {
        Some(WindowOp::Open(d)) => !open && active && d@ == detail,
        Some(WindowOp::Close) => open && !active,
        None => open == active,
    }
}

/// What a turn does with the count of admitted probes.
pub open spec fn share_of(share: Option<(i64, u64)>, t: Turn) -> Share {
    let known = match share {
        Some(s) => Some(s.0),
        None => None,
    };
    if !t.has_probe_results && known == t.gate_started {
        Share::Keep
    } else {
        match t.gate_started {
            Some(s) => Share::CountSince(s),
            None => Share::Drop,
        }
    }
}

fn window_op(open: bool, active: bool, detail: String) -> (r: Option<WindowOp>)
    ensures
        is_window_op(r, open, active, detail@),
        open_after(r, open) == active,
{
    if active == open {
        None
    } else if active {
        Some(WindowOp::Open(detail))
    } else {
        Some(WindowOp::Close)
    }
}

// When a job was last done: now, where it is done in this turn.
fn clock(done: bool, now: i64, before: i64) -> (r: i64)
    ensures
        r == (if done {
            now
        } else {
            before
        }),
{
    if done {
        now
    } else {
        before
    }
}

fn bench_line(profile: &Option<String>) -> (r: String)
    ensures
        r@ == bench_detail(opt_view(*profile)),
{
    let mut detail = "lss bench ".to_owned();
    match profile {
        Some(p) => {
            detail.append(p.as_str());
        },
        None => {
            assert("lss bench "@ + Seq::<char>::empty() =~= "lss bench "@);
        },
    }
    detail.append(" running: the load is the benchmark's; queue and C1 alerts stand down");
    detail
}

fn maintenance_line(reason: &str) -> (r: String)
    ensures
        r@ == maintenance_detail(reason@),
{
    let mut detail = "planned maintenance: ".to_owned();
    detail.append(reason);
    detail
}

fn share_step(held: Option<(i64, u64)>, t: &Turn) -> (r: Share)
    ensures
        r == share_of(held, *t),
{
    let stale = match held {
        Some(s) => match t.gate_started {
            Some(g) => s.0 != g,
            None => true,
        },
        None => t.gate_started.is_some(),
    };
    if !t.has_probe_results && !stale {
        Share::Keep
    } else {
        match t.gate_started {
            Some(s) => Share::CountSince(s),
            None => Share::Drop,
        }
    }
}

impl Cycle {
    /// One turn: what is owed, and the clocks of what is done set to `now`.
    pub fn turn(&mut self, t: &Turn) -> (p: Plan)
        requires
            t.now - DAY >= i64::MIN,
            t.now < i64::MAX,
        ensures
            is_window_op(p.bench, old(self).bench_open, t.bench_active, bench_detail(opt_view(t.bench_profile))),
            is_window_op(p.maintenance, old(self).maintenance_open, t.maintenance_active, maintenance_detail(t.maintenance_reason@)),
            p.reload_bench == (t.bench_generation != old(self).bench_generation),
            p.flush == (t.flush_secs > 0 && due(t.now, old(self).last_flush, t.flush_secs as int)),
            p.mark_scan == (t.journal_ok && due(t.now, old(self).last_scan_mark, 60)),
            p.share == share_of(old(self).probe_share, *t),
            p.save_ledger == (t.has_metrics && due(t.now, old(self).ledger_saved_at, 60)),
            p.own_probes == (if due(t.now, old(self).own_probes_at, 60) {
                Some((later(t.now - 3600, t.gate_knows_since as int) as i64, later(t.now - DAY, t.gate_knows_since as int) as i64))
            } else {
                None::<(i64, i64)>
            }),
            p.prune == due(t.now, old(self).last_prune, 3600),
            p.tokens == due(t.now, old(self).tokens_at, 60),
            p.advice == due(t.now, old(self).advice_at, 300),
            p.user_log == (if due(t.now, old(self).user_log_at, 60) {
                Some(((t.now - DAY) as i64, (t.now + 1) as i64))
            } else {
                None::<(i64, i64)>
            }),
            *final(self) == (Cycle {
                bench_open: t.bench_active,
                bench_generation: t.bench_generation,
                maintenance_open: t.maintenance_active,
                last_flush: if p.flush { t.now } else { old(self).last_flush },
                last_scan_mark: if p.mark_scan { t.now } else { old(self).last_scan_mark },
                last_prune: if p.prune { t.now } else { old(self).last_prune },
                probe_share: match p.share {
                    Share::Keep => old(self).probe_share,
                    Share::Drop => None,
                    Share::CountSince(s) => Some((s, 0u64)),
                },
                own_probes_at: if p.own_probes is Some { t.now } else { old(self).own_probes_at },
                tokens_at: if p.tokens { t.now } else { old(self).tokens_at },
                advice_at: if p.advice { t.now } else { old(self).advice_at },
                user_log_at: if p.user_log is Some { t.now } else { old(self).user_log_at },
                ledger_saved_at: if p.save_ledger { t.now } else { old(self).ledger_saved_at },
                ..*old(self)
            }),
    {
        let now: i64 = t.now;
        let bench = window_op(self.bench_open, t.bench_active, bench_line(&t.bench_profile));
        let maintenance = window_op(
            self.maintenance_open,
            t.maintenance_active,
            maintenance_line(t.maintenance_reason.as_str()),
        );
        let reload_bench = t.bench_generation != self.bench_generation;
        let flush = t.flush_secs > 0 && now as i128 - self.last_flush as i128
            >= t.flush_secs as i128;
        let mark_scan = t.journal_ok && is_due(now, self.last_scan_mark, 60);
        let share = share_step(self.probe_share, t);
        let save_ledger = t.has_metrics && is_due(now, self.ledger_saved_at, 60);
        let count_probes = is_due(now, self.own_probes_at, 60);
        let own_probes: Option<(i64, i64)> = if count_probes {
            Some((later_of(now - 3600, t.gate_knows_since), later_of(now - DAY, t.gate_knows_since)))
        } else {
            None
        };
        let prune = is_due(now, self.last_prune, 3600);
        let tokens = is_due(now, self.tokens_at, 60);
        let advice = is_due(now, self.advice_at, 300);
        let merge_log = is_due(now, self.user_log_at, 60);
        let user_log: Option<(i64, i64)> = if merge_log {
            Some((now - DAY, now + 1))
        } else {
            None
        };
        self.bench_open = t.bench_active;
        self.bench_generation = t.bench_generation;
        self.maintenance_open = t.maintenance_active;
        self.last_flush = clock(flush, now, self.last_flush);
        self.last_scan_mark = clock(mark_scan, now, self.last_scan_mark);
        self.last_prune = clock(prune, now, self.last_prune);
        self.probe_share = match share {
            Share::Keep => self.probe_share,
            Share::Drop => None,
            Share::CountSince(s) => Some((s, 0)),
        };
        self.own_probes_at = clock(count_probes, now, self.own_probes_at);
        self.tokens_at = clock(tokens, now, self.tokens_at);
        self.advice_at = clock(advice, now, self.advice_at);
        self.user_log_at = clock(merge_log, now, self.user_log_at);
        self.ledger_saved_at = clock(save_ledger, now, self.ledger_saved_at);
        Plan {
            bench,
            maintenance,
            reload_bench,
            flush,
            mark_scan,
            share,
            save_ledger,
            own_probes,
            prune,
            tokens,
            advice,
            user_log,
        }
    }

    /// Books the count that `Share::CountSince` asked for.
    pub fn counted(&mut self, n: u64)
        ensures
            *final(self) == (Cycle {
                probe_share: match old(self).probe_share {
                    Some(s) => Some((s.0, n)),
                    None => None,
                },
                ..*old(self)
            }),
    {
        if let Some(s) = self.probe_share {
            self.probe_share = Some((s.0, n));
        }
    }
}

// ------------------------------------------------------------------- windows over many turns

/// Whether `ops` are what turns do to a window's incident that is not open at first, where `active`
/// says of each turn whether the window lasts.
pub open spec fn are_window_ops(
    ops: Seq<Option<WindowOp>>,
    active: Seq<bool>,
    details: Seq<Seq<char>>,
) -> bool {
    &&& ops.len() == active.len() == details.len()
    &&& forall|k: int|
        0 <= k < ops.len() ==> is_window_op(
            #[trigger] ops[k],
            k > 0 && active[k - 1],
            active[k],
            details[k],
        )
}

/// After every turn a window's incident is open exactly where the window lasts.
pub proof fn law_incident_is_open_while_the_window_lasts(
    ops: Seq<Option<WindowOp>>,
    active: Seq<bool>,
    details: Seq<Seq<char>>,
    k: int,
)
    requires
        are_window_ops(ops, active, details),
        0 <= k < ops.len(),
    ensures
        open_after(ops[k], k > 0 && active[k - 1]) == active[k],
{
    assert(is_window_op(ops[k], k > 0 && active[k - 1], active[k], details[k]));
}

/// No window's incident is opened twice without a close between.
pub proof fn law_windows_open_and_close_in_turn(
    ops: Seq<Option<WindowOp>>,
    active: Seq<bool>,
    details: Seq<Seq<char>>,
    i: int,
    j: int,
)
    requires
        are_window_ops(ops, active, details),
        0 <= i < j < ops.len(),
        ops[i] is Some && ops[i]->0 is Open,
        ops[j] is Some && ops[j]->0 is Open,
    ensures
        exists|k: int| i < k < j && #[trigger] ops[k] == Some(WindowOp::Close),
{
    assert(is_window_op(ops[i], i > 0 && active[i - 1], active[i], details[i]));
    assert(is_window_op(ops[j], j > 0 && active[j - 1], active[j], details[j]));
    let k = lemma_window_closes(ops, active, details, i, j - 1);
    assert(ops[k] == Some(WindowOp::Close));
}

proof fn lemma_window_closes(
    ops: Seq<Option<WindowOp>>,
    active: Seq<bool>,
    details: Seq<Seq<char>>,
    i: int,
    j: int,
) -> (k: int)
    requires
        are_window_ops(ops, active, details),
        0 <= i <= j < ops.len(),
        active[i],
        !active[j],
    ensures
        i < k <= j,
        ops[k] == Some(WindowOp::Close),
    decreases j - i,
{
    if active[j - 1] {
        assert(is_window_op(ops[j], j > 0 && active[j - 1], active[j], details[j]));
        j
    } else {
        lemma_window_closes(ops, active, details, i, j - 1)
    }
}

/// The count of admitted probes is of the gateway's present run: it is counted anew where the gateway
/// started again or a probe has come in, kept where neither happened, and dropped where the gateway's
/// start is not known.
pub proof fn law_probes_are_counted_since_the_gateway_started(share: Option<(i64, u64)>, t: Turn)
    ensures
        ({
            let r = share_of(share, t);
            let same = match (share, t.gate_started) {
                (Some(s), Some(g)) => s.0 == g,
                (None, None) => true,
                _ => false,
            };
            &&& r is Keep <==> same && !t.has_probe_results
            &&& r is CountSince <==> !(r is Keep) && t.gate_started is Some
            &&& r matches Share::CountSince(g) ==> t.gate_started == Some(g)
            &&& r is Drop <==> !(r is Keep) && t.gate_started is None
        }),
{
}

/// A job is due exactly from `secs` seconds after it was last done.
pub proof fn law_a_job_is_due_in_its_time(now: i64, since: i64, secs: int)
    ensures
        due(now, since, secs) <==> now >= since + secs,
        due(now, now, secs) <==> secs <= 0,
{
}

/// A bucket holds its instant, begins at a whole multiple of its width, and is the only one that does:
/// two instants share a bucket exactly where the same multiple is the last at or before both.
pub proof fn law_an_instant_has_one_bucket(t: int, width: int, start: int)
    requires
        width > 0,
    ensures
        start == bucket_start(t, width) <==> start % width == 0 && start <= t < start + width,
{
    vstd::arithmetic::div_mod::lemma_fundamental_div_mod(t, width);
    vstd::arithmetic::div_mod::lemma_mod_bound(t, width);
    let q = t / width;
    let s = bucket_start(t, width);
    assert(s == width * q);
    assert(s % width == 0) by {
        vstd::arithmetic::div_mod::lemma_mod_multiples_basic(q, width);
        vstd::arithmetic::mul::lemma_mul_is_commutative(q, width);
    }
    if start % width == 0 && start <= t < start + width {
        vstd::arithmetic::div_mod::lemma_fundamental_div_mod(start, width);
        let p = start / width;
        assert(start == width * p);
        assert(p == q) by (nonlinear_arith)
            requires
                width > 0,
                width * p <= t < width * p + width,
                width * q <= t < width * q + width,
        ;
    }
}

// ------------------------------------------------------------------- what a turn reports

/// The clock, in whole seconds since the epoch: 0 where it stands before it.
pub fn unix_now(since_epoch: Option<u64>) -> (r: i64)
    ensures
        r == (match since_epoch {
            Some(s) => s as i64,
            None => 0i64,
        }),
        since_epoch is Some && since_epoch->0 <= i64::MAX ==> r == since_epoch->0,
{
    match since_epoch {
        Some(s) => #[verifier::truncate]
        (s as i64),
        None => 0,
    }
}

/// Where the speed that alone counts as normal comes from: the owner, what was learned, or how far
/// the learning has come.
pub fn baseline_source(configured: bool, learned: bool, progress: u64, needed: u64) -> (r: String)
    ensures
        r@ == (if configured {
            "config"@
        } else if learned {
            "learned"@
        } else {
            "learning "@ + dec(progress as nat) + "/"@ + dec(needed as nat)
        }),
{
    if configured {
        return "config".to_owned();
    }
    if learned {
        return "learned".to_owned();
    }
    let mut s = "learning ".to_owned();
    s.append(dec_u64(progress).as_str());
    s.append("/");
    s.append(dec_u64(needed).as_str());
    s
}

/// What the engine does not report: its slots are known after all where they were found out.
pub open spec fn still_missing(keys: Seq<Seq<char>>, slots: u32) -> Seq<Seq<char>> {
    if slots > 0 {
        keys.filter(|k: Seq<char>| k != "slots"@)
    } else {
        keys
    }
}

/// A number counts as missing exactly where the engine does not report it, but for the slots once they
/// are known; and those that do come in their order.
pub proof fn law_only_known_slots_are_not_missing(keys: Seq<Seq<char>>, key: Seq<char>, slots: u32)
    ensures
        still_missing(Seq::empty(), slots) == Seq::<Seq<char>>::empty(),
        still_missing(keys.push(key), slots) == (if slots > 0 && key == "slots"@ {
            still_missing(keys, slots)
        } else {
            still_missing(keys, slots).push(key)
        }),
{
    reveal(Seq::filter);
    assert(keys.push(key).drop_last() =~= keys);
}

/// What the engine does not report: its slots are known after all where they were found out.
pub fn not_reported(keys: &Vec<String>, slots: u32) -> (r: Vec<String>)
    ensures
        views(r@) == still_missing(views(keys@), slots),
{
    let mut out: Vec<String> = Vec::new();
    let mut i: usize = 0;
    let ghost all = views(keys@);
    assert(still_missing(all.take(0), slots) =~= Seq::<Seq<char>>::empty()) by {
        reveal(Seq::filter);
    }
    while i < keys.len()
        invariant
            i <= keys@.len(),
            all == views(keys@),
            views(out@) == still_missing(all.take(i as int), slots),
        decreases keys@.len() - i,
    {
        proof {
            reveal(Seq::filter);
            assert(all.take(i + 1).drop_last() =~= all.take(i as int));
            assert(all.take(i + 1) =~= all.take(i as int).push(keys@[i as int]@));
        }
        if slots == 0 || !same(keys[i].as_str(), "slots") {
            let ghost before = out@;
            out.push(keys[i].clone());
            assert(views(out@) =~= views(before).push(keys@[i as int]@));
        }
        i += 1;
    }
    assert(all.take(all.len() as int) =~= all);
    out
}

/// Whether a user of the gateway is the probe.
pub open spec fn is_probe_user(u: GateUser, probe: Option<Seq<char>>) -> bool {
    u.lane@ == "trusted"@ && probe == Some(u.user@)
}

/// Since when the gateway has known the probe's address: its counters of the probe begin there.
pub open spec fn known_since(users: Seq<GateUser>, probe: Option<Seq<char>>) -> int
    decreases users.len(),
{
    if users.len() == 0 {
        0
    } else if is_probe_user(users[0], probe) {
        users[0].first_seen as int
    } else {
        known_since(users.drop_first(), probe)
    }
}

/// The gateway has known the probe since it first saw its address in the trusted lane: the first user
/// there under the probe's name tells when, and without one it is told as the beginning of time.
pub proof fn law_the_first_of_the_probe_tells(users: Seq<GateUser>, u: GateUser, probe: Option<Seq<char>>)
    ensures
        known_since(Seq::empty(), probe) == 0,
        known_since(seq![u] + users, probe) == (if u.lane@ == "trusted"@ && probe == Some(u.user@) {
            u.first_seen as int
        } else {
            known_since(users, probe)
        }),
{
    let all = seq![u] + users;
    assert(all[0] == u);
    assert(all.drop_first() =~= users);
}

/// Since when the gateway has known the probe's address: its counters of the probe begin there.
pub fn gate_knows_since(users: &Vec<GateUser>, probe: &Option<String>) -> (r: i64)
    ensures
        r == known_since(users@, opt_view(*probe)),
{
    let mut i: usize = 0;
    assert(users@.skip(0) =~= users@);
    while i < users.len()
        invariant
            i <= users@.len(),
            known_since(users@, opt_view(*probe)) == known_since(
                users@.skip(i as int),
                opt_view(*probe),
            ),
        decreases users@.len() - i,
    {
        proof {
            assert(users@.skip(i as int)[0] == users@[i as int]);
            assert(users@.skip(i as int).drop_first() =~= users@.skip(i + 1));
        }
        let is_probe = match probe {
            Some(p) => same(p.as_str(), users[i].user.as_str()),
            None => false,
        };
        if is_probe && same(users[i].lane.as_str(), "trusted") {
            return users[i].first_seen;
        }
        i += 1;
    }
    0
}

/// The newest probe that is a reading, of those that one turn brings.
pub fn last_reading(readings: &Vec<bool>) -> (r: Option<usize>)
    ensures
        match r {
            Some(i) => i < readings@.len() && readings@[i as int] && forall|j: int|
                i < j < readings@.len() ==> !readings@[j],
            None => forall|j: int| 0 <= j < readings@.len() ==> !readings@[j],
        },
{
    let mut i: usize = readings.len();
    while i > 0
        invariant
            i <= readings@.len(),
            forall|j: int| i <= j < readings@.len() ==> !readings@[j],
        decreases i,
    {
        i -= 1;
        if readings[i] {
            return Some(i);
        }
    }
    None
}

/// A file system: its size and what is free of it, in bytes.
#[derive(Clone, Copy, PartialEq, Eq, Structural, Debug)]
pub struct DiskObs {
    pub total_bytes: u64,
    pub avail_bytes: u64,
}

/// A file system's counts, in blocks.
#[derive(Clone, Copy, PartialEq, Eq, Structural, Debug)]
pub struct DiskBlocks {
    pub blocks: u64,
    pub available: u64,
    /// bytes of a block
    pub frag: u64,
}

/// A reading of the file system of `path`: none where no path is watched, or it cannot be read.
pub fn disk_reading(path: &str, read: Option<DiskBlocks>) -> (r: Option<DiskObs>)
    requires
        read is Some ==> read->0.blocks * read->0.frag <= u64::MAX && read->0.available
            * read->0.frag <= u64::MAX,
    ensures
        r is Some == (trimmed(path@).len() > 0 && read is Some),
        r is Some ==> r->0.total_bytes == read->0.blocks * read->0.frag && r->0.avail_bytes
            == read->0.available * read->0.frag,
{
    if trim(path).as_str().is_empty() {
        return None;
    }
    match read {
        None => None,
        Some(b) => Some(
            DiskObs { total_bytes: b.blocks * b.frag, avail_bytes: b.available * b.frag },
        ),
    }
}

/// The spool of the alert sink, as a listing finds it.
pub enum Spool {
    /// of each entry, whether it is a file
    Entries(Vec<bool>),
    Missing,
    Unreadable,
}

/// How many of some entries are files.
pub open spec fn files(entries: Seq<bool>) -> nat
    decreases entries.len(),
{
    if entries.len() == 0 {
        0
    } else if entries.last() {
        files(entries.drop_last()) + 1
    } else {
        files(entries.drop_last())
    }
}

/// The files among some entries are counted one by one.
pub proof fn law_each_file_counts_once(entries: Seq<bool>, is_file: bool)
    ensures
        files(Seq::empty()) == 0,
        files(entries.push(is_file)) == files(entries) + (if is_file {
            1int
        } else {
            0
        }),
{
    assert(entries.push(is_file).drop_last() =~= entries);
}

/// How much mail waits in the spool: none where there is no spool yet, unknown where it cannot be
/// read.
pub fn spool_depth(spool: &Spool) -> (r: Option<u64>)
    ensures
        match *spool {
            Spool::Entries(v) => r is Some && r->0 == files(v@),
            Spool::Missing => r == Some(0u64),
            Spool::Unreadable => r is None,
        },
{
    match spool {
        Spool::Missing => Some(0),
        Spool::Unreadable => None,
        Spool::Entries(v) => {
            let mut n: u64 = 0;
            let mut i: usize = 0;
            while i < v.len()
                invariant
                    i <= v@.len(),
                    n == files(v@.take(i as int)),
                    n <= i,
                decreases v@.len() - i,
            {
                assert(v@.take(i + 1).drop_last() =~= v@.take(i as int));
                if v[i] {
                    n += 1;
                }
                i += 1;
            }
            assert(v@.take(v@.len() as int) =~= v@);
            Some(n)
        },
    }
}

/// How long a turn rests before the next, in milliseconds: nothing where it took too long itself.
pub fn rest_ms(poll_secs: u64, took_ms: u64) -> (r: Option<u64>)
    requires
        poll_secs * 1000 <= u64::MAX,
    ensures
        ({
            let poll = (if poll_secs > 1 {
                poll_secs as int
            } else {
                1
            }) * 1000;
            match r {
                Some(n) => n == poll - took_ms,
                None => poll < took_ms,
            }
        }),
{
    let poll: u64 = if poll_secs > 1 {
        poll_secs * 1000
    } else {
        1000
    };
    if poll < took_ms {
        None
    } else {
        Some(poll - took_ms)
    }
}

/// The incident of a window is opened exactly when the window begins and closed exactly when it ends;
/// while nothing changes, nothing is done.
pub proof fn law_a_window_opens_and_closes_once(
    op: Option<WindowOp>,
    open: bool,
    active: bool,
    detail: Seq<char>,
)
    requires
        is_window_op(op, open, active, detail),
    ensures
        op is None <==> open == active,
        op is Some && op->0 is Open <==> active && !open,
        op is Some && op->0 is Close <==> open && !active,
        op matches Some(WindowOp::Open(d)) ==> d@ == detail,
{
}

/// The line of a marked benchmark names its profile, and that of a maintenance its reason.
pub proof fn law_a_mark_says_what_it_marks(profile: Seq<char>, reason: Seq<char>)
    ensures
        crate::text::holds(bench_detail(Some(profile)), profile),
        crate::text::ends(maintenance_detail(reason), reason),
{
    let b = " running: the load is the benchmark's; queue and C1 alerts stand down"@;
    assert(bench_detail(Some(profile)) =~= "lss bench "@ + profile + b);
    crate::text::lemma_stands_between("lss bench "@, profile, b);
    let m = maintenance_detail(reason);
    assert(m.skip(m.len() - reason.len()) =~= reason);
}

/// A run is shown as the last once it is over, and a rehearsal never is. The probe is the trusted user
/// of its own address, and nobody else.
pub proof fn law_who_and_what_is_left_out(r: RunRow, u: GateUser, probe: Option<Seq<char>>)
    ensures
        is_shown_run(r) <==> !(r.status@ == "running"@ || r.profile@ == "dry-run"@),
        is_probe_user(u, probe) ==> probe is Some && u.user@ == probe->0 && u.lane@ == "trusted"@,
        probe is Some && u.user@ == probe->0 && u.lane@ == "trusted"@ ==> is_probe_user(u, probe),
{
}

/// What is known of the first sight counts: the mark that was stored, else the first sample, else the
/// start; and only what was not stored yet is stored, as it is.
pub proof fn law_the_first_sight_is_stored_once(
    mark: Option<i64>,
    first_sample: Option<i64>,
    started_at: i64,
    r: (i64, Option<i64>),
)
    requires
        call_ensures(first_seen, (mark, first_sample, started_at), r),
    ensures
        mark is Some ==> r.0 == mark->0,
        mark is None && first_sample is Some ==> r.0 == first_sample->0,
        mark is None && first_sample is None ==> r.0 == started_at,
        r.1 is Some <==> mark is None,
        r.1 is Some ==> r.1->0 == r.0,
{
}

/// The loop rests for what is left of its poll, and not at all where the poll took longer; a poll is
/// never under a second.
pub proof fn law_the_loop_rests_what_is_left(poll_secs: u64, took_ms: u64, r: Option<u64>)
    requires
        poll_secs * 1000 <= u64::MAX,
        call_ensures(rest_ms, (poll_secs, took_ms), r),
    ensures
        poll_secs >= 1 && took_ms <= poll_secs * 1000 ==> r is Some && r->0 + took_ms == poll_secs
            * 1000,
        poll_secs >= 1 && took_ms > poll_secs * 1000 ==> r is None,
        poll_secs == 0 && took_ms <= 1000 ==> r is Some && r->0 + took_ms == 1000,
{
}

/// The disk is told of where a path is configured and it could be read, in bytes.
pub proof fn law_only_a_disk_that_was_read_is_told(
    path: &str,
    read: Option<DiskBlocks>,
    r: Option<DiskObs>,
)
    requires
        call_ensures(disk_reading, (path, read), r),
    ensures
        r is Some <==> trimmed(path@).len() > 0 && read is Some,
        r is Some ==> r->0.total_bytes == read->0.blocks * read->0.frag && r->0.avail_bytes
            == read->0.available * read->0.frag,
{
}

} // verus!
