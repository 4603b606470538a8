//! The numbers behind the advice: which rows each window reads, what of it is covered, and which of
//! two figures is the honest one.

use crate::cycle::{later, later_of};
use crate::db::{reaches, Incident};
use crate::text::same;
use vstd::prelude::*;
use vstd::string::*;

verus! {

/// The tier that answers a window: minutes for a day, ten minutes beyond.
pub open spec fn tier_of(secs: int) -> int {
    if secs <= 86_400 {
        60
    } else {
        600
    }
}

/// The tier that answers a window: minutes for a day, ten minutes beyond.
pub fn tier(secs: i64) -> (r: i64)
    ensures
        r == tier_of(secs as int),
{
    if secs <= 86_400 {
        60
    } else {
        600
    }
}

/// A window: the rows from `from` to before `to`, of the tier `res`.
#[derive(Clone, Copy, PartialEq, Eq, Structural, Debug)]
pub struct Span {
    pub from: i64,
    pub to: i64,
    pub res: i64,
}

/// The rows that a window of `secs` reads, the row of this second among them.
pub fn window(now: i64, secs: i64) -> (r: Span)
    requires
        0 <= secs,
        now - secs >= i64::MIN,
        now < i64::MAX,
    ensures
        r.from == now - secs,
        r.to == now + 1,
        r.res == tier_of(secs as int),
{
    Span { from: now - secs, to: now + 1, res: tier(secs) }
}

/// `x`, but not under 0 and not over `most`.
pub open spec fn between(x: int, most: int) -> int {
    if x < 0 {
        0
    } else if x > most {
        most
    } else {
        x
    }
}

/// How many seconds of a window were watched.
pub fn covered_secs(now: i64, secs: i64, first_sample_ts: i64) -> (r: i64)
    requires
        0 <= secs,
        now - secs >= i64::MIN,
    ensures
        r == between(now - later(first_sample_ts as int, now - secs), secs as int),
{
    let start: i64 = later_of(first_sample_ts, now - secs);
    let n: i128 = now as i128 - start as i128;
    if n < 0 {
        0
    } else if n > secs as i128 {
        secs
    } else {
        n as i64
    }
}

/// From when a ratio of two metrics counts: from when both were recorded, and not before the window.
/// Nothing where one of them never was.
pub open spec fn both_start(from: i64, a: Option<i64>, b: Option<i64>) -> Option<int> {
    match (a, b) {
        (Some(fa), Some(fb)) => Some(later(later(from as int, fa as int), fb as int)),
        _ => None,
    }
}

/// From when a ratio of two metrics counts: from when both were recorded, and not before the window.
/// Nothing where one of them never was.
pub fn ratio_from(from: i64, a: Option<i64>, b: Option<i64>) -> (r: Option<i64>)
    ensures
        match r {
            Some(t) => both_start(from, a, b) == Some(t as int),
            None => both_start(from, a, b) is None,
        },
{
    match a {
        Some(fa) => match b {
            Some(fb) => Some(later_of(later_of(from, fa), fb)),
            None => None,
        },
        None => None,
    }
}

/// A ratio never sets rows of one metric against a time the other was not recorded in: from where it
/// counts, both were, and it leaves out no row of the window that both have.
pub proof fn law_a_ratio_covers_what_both_cover(from: i64, fa: i64, fb: i64, t: i64)
    ensures
        both_start(from, Some(fa), Some(fb)) is Some,
        t >= both_start(from, Some(fa), Some(fb))->0 <==> t >= from && t >= fa && t >= fb,
{
}

/// How many seconds of a window a count was kept for, where it was ever kept: what a rate divides by.
pub fn kept_secs(s: Span, first: Option<i64>) -> (r: Option<i64>)
    requires
        first is Some ==> s.to - later(s.from as int, first->0 as int) <= i64::MAX,
    ensures
        match first {
            None => r is None,
            Some(f) => r is Some && r->0 == at_least_zero(s.to - later(s.from as int, f as int)),
        },
{
    match first {
        None => None,
        Some(f) => {
            let start: i64 = later_of(s.from, f);
            if s.to > start {
                Some((s.to as i128 - start as i128) as i64)
            } else {
                Some(0)
            }
        },
    }
}

// ---------------------------------------------------------------- the targets

/// The seconds of an incident between `start` and `now`, where an open one lasts to now.
pub open spec fn down_within(i: Incident, start: int, now: int) -> int {
    let end = match i.end {
        Some(e) if e < now => e as int,
        _ => now,
    };
    let n = end - later(i.start as int, start);
    if n > 0 {
        n
    } else {
        0
    }
}

/// The seconds that the engine was down between `start` and `now`, by its incidents of this kind.
pub open spec fn down_secs(rows: Seq<Incident>, kind: Seq<char>, start: int, now: int) -> int
    decreases rows.len(),
{
    if rows.len() == 0 {
        0
    } else {
        let before = down_secs(rows.drop_last(), kind, start, now);
        let i = rows.last();
        if i.kind@ == kind && reaches(i.start, i.end, start) {
            before + down_within(i, start, now)
        } else {
            before
        }
    }
}

proof fn lemma_down_bounds(rows: Seq<Incident>, kind: Seq<char>, start: int, now: int)
    requires
        start < now,
    ensures
        0 <= down_secs(rows, kind, start, now) <= rows.len() * (now - start),
    decreases rows.len(),
{
    if rows.len() > 0 {
        lemma_down_bounds(rows.drop_last(), kind, start, now);
        assert(rows.len() * (now - start) == (rows.len() - 1) * (now - start) + (now - start))
            by (nonlinear_arith);
    }
}

proof fn lemma_product_grows(a: int, b: int, x: int)
    requires
        0 <= a <= b,
        0 <= x,
    ensures
        a * x <= b * x,
{
    assert(a * x <= b * x) by (nonlinear_arith)
        requires
            0 <= a <= b,
            0 <= x,
    ;
}

/// How long the engine was down (its incidents of this kind), of how many watched seconds of the window; nothing where none was
/// watched.
pub fn targets(rows: &Vec<Incident>, kind: &str, now: i64, secs: i64, first_sample_ts: i64) -> (r:
    Option<(i64, i64)>)
    requires
        0 <= secs,
        now - secs >= i64::MIN,
        rows@.len() * secs <= i64::MAX,
    ensures
        ({
            let start = later(now - secs, first_sample_ts as int);
            match r {
                Some(d) => now > start && d.0 == down_secs(rows@, kind@, start, now as int) && d.1 == now
                    - start,
                None => now <= start,
            }
        }),
{
    let start: i64 = later_of(now - secs, first_sample_ts);
    if now <= start {
        return None;
    }
    let mut down: i64 = 0;
    let mut i: usize = 0;
    while i < rows.len()
        invariant
            i <= rows@.len(),
            start < now,
            now - start <= secs,
            0 <= secs,
            rows@.len() * secs <= i64::MAX,
            down == down_secs(rows@.take(i as int), kind@, start as int, now as int),
        decreases rows@.len() - i,
    {
        proof {
            assert(rows@.take(i + 1).drop_last() =~= rows@.take(i as int));
            lemma_down_bounds(rows@.take(i + 1), kind@, start as int, now as int);
            lemma_product_grows(i + 1, rows@.len() as int, now - start);
            assert(rows@.len() * (now - start) <= rows@.len() * secs) by (nonlinear_arith)
                requires
                    now - start <= secs,
            ;
        }
        let reached = rows[i].start >= start || match rows[i].end {
            Some(e) => e >= start,
            None => true,
        };
        if reached && same(rows[i].kind.as_str(), kind) {
            let end: i64 = match rows[i].end {
                Some(e) => if e < now {
                    e
                } else {
                    now
                },
                None => now,
            };
            let begin: i64 = later_of(rows[i].start, start);
            if end > begin {
                down = down + (end - begin);
            }
        }
        i += 1;
    }
    assert(rows@.take(rows@.len() as int) =~= rows@);
    Some((down, now - start))
}

/// Whether no two incidents while the engine is down overlap, and each comes before the next.
pub open spec fn one_at_a_time(rows: Seq<Incident>, kind: Seq<char>) -> bool {
    forall|i: int, j: int|
        0 <= i < j < rows.len() && (#[trigger] rows[i]).kind@ == kind && (
        #[trigger] rows[j]).kind@ == kind ==> rows[i].end is Some && rows[i].end->0
            <= rows[j].start
}

/// Where the engine is down once at a time, it is never down for longer than it was watched: the
/// uptime is a share between none and all.
pub proof fn law_uptime_is_a_share(rows: Seq<Incident>, kind: Seq<char>, start: int, now: int)
    requires
        start < now,
        one_at_a_time(rows, kind),
    ensures
        0 <= down_secs(rows, kind, start, now) <= now - start,
{
    lemma_down_bounds(rows, kind, start, now);
    lemma_down_before(rows, kind, start, now, now);
}

/// Whether second `t` lies inside an incident: from its start to before its end, or on without an end.
pub open spec fn is_inside(i: Incident, t: int) -> bool {
    i.start <= t && (match i.end {
        Some(e) => t < e,
        None => true,
    })
}

/// The watched seconds that lie inside an incident of this kind.
pub open spec fn seconds_down(rows: Seq<Incident>, kind: Seq<char>, start: int, now: int) -> Set<int> {
    Set::new(
        |t: int|
            start <= t < now && exists|i: int|
                0 <= i < rows.len() && (#[trigger] rows[i]).kind@ == kind && is_inside(rows[i], t),
    )
}

/// The seconds of one incident that are watched are as many as are counted for it.
proof fn lemma_one_outage(i: Incident, start: int, now: int)
    requires
        start < now,
    ensures
        ({
            let s = Set::new(|t: int| start <= t < now && is_inside(i, t));
            &&& s.finite()
            &&& s.len() == (if reaches(i.start, i.end, start) {
                down_within(i, start, now)
            } else {
                0
            })
        }),
{
    let s = Set::new(|t: int| start <= t < now && is_inside(i, t));
    let from = if i.start >= start {
        i.start as int
    } else {
        start
    };
    let to = match i.end {
        Some(e) if e < now => e as int,
        _ => now,
    };
    if from < to {
        vstd::set_lib::lemma_int_range(from, to);
        assert(s =~= vstd::set_lib::set_int_range(from, to));
    } else {
        assert(s =~= Set::empty());
    }
}

/// The downtime is the number of watched seconds that lie inside an incident of this kind, where no
/// second lies inside two of them.
pub proof fn law_downtime_is_the_seconds_down(
    rows: Seq<Incident>,
    kind: Seq<char>,
    start: int,
    now: int,
)
    requires
        start < now,
        forall|i: int, j: int, t: int|
            0 <= i < j < rows.len() && rows[i].kind@ == kind && rows[j].kind@ == kind
                && #[trigger] is_inside(rows[i], t) ==> !#[trigger] is_inside(rows[j], t),
    ensures
        seconds_down(rows, kind, start, now).finite(),
        down_secs(rows, kind, start, now) == seconds_down(rows, kind, start, now).len(),
    decreases rows.len(),
{
    let all = seconds_down(rows, kind, start, now);
    if rows.len() == 0 {
        assert(all =~= Set::empty());
    } else {
        let rest = rows.drop_last();
        let last = rows.last();
        assert forall|i: int, j: int, t: int|
            0 <= i < j < rest.len() && rest[i].kind@ == kind && rest[j].kind@ == kind
                && #[trigger] is_inside(rest[i], t) implies !#[trigger] is_inside(rest[j], t) by {
            assert(is_inside(rows[i], t));
            assert(rows[j] == rest[j]);
        }
        law_downtime_is_the_seconds_down(rest, kind, start, now);
        let before = seconds_down(rest, kind, start, now);
        let own = Set::new(|t: int| start <= t < now && is_inside(last, t));
        lemma_one_outage(last, start, now);
        if last.kind@ == kind {
            assert(all =~= before + own) by {
                assert forall|t: int| all.contains(t) implies (before + own).contains(t) by {
                    let i = choose|i: int|
                        0 <= i < rows.len() && (#[trigger] rows[i]).kind@ == kind && is_inside(
                            rows[i],
                            t,
                        );
                    if i < rest.len() {
                        assert(rest[i] == rows[i]);
                    }
                }
                assert forall|t: int| (before + own).contains(t) implies all.contains(t) by {
                    if before.contains(t) {
                        let i = choose|i: int|
                            0 <= i < rest.len() && (#[trigger] rest[i]).kind@ == kind && is_inside(
                                rest[i],
                                t,
                            );
                        assert(rows[i] == rest[i]);
                    } else {
                        assert(rows[rows.len() - 1] == last);
                    }
                }
            }
            assert(before.disjoint(own)) by {
                assert forall|t: int| before.contains(t) implies !own.contains(t) by {
                    let i = choose|i: int|
                        0 <= i < rest.len() && (#[trigger] rest[i]).kind@ == kind && is_inside(
                            rest[i],
                            t,
                        );
                    assert(is_inside(rows[i], t));
                    assert(rows[rows.len() - 1] == last);
                    assert(!is_inside(rows[rows.len() - 1], t));
                }
            }
            vstd::set_lib::lemma_set_disjoint_lens(before, own);
        } else {
            assert(all =~= before) by {
                assert forall|t: int| all.contains(t) implies before.contains(t) by {
                    let i = choose|i: int|
                        0 <= i < rows.len() && (#[trigger] rows[i]).kind@ == kind && is_inside(
                            rows[i],
                            t,
                        );
                    assert(rest[i] == rows[i]);
                }
                assert forall|t: int| before.contains(t) implies all.contains(t) by {
                    let i = choose|i: int|
                        0 <= i < rest.len() && (#[trigger] rest[i]).kind@ == kind && is_inside(
                            rest[i],
                            t,
                        );
                    assert(rows[i] == rest[i]);
                }
            }
        }
    }
}

/// The downtime is added up incident by incident, whether they overlap or not: one of this kind adds
/// the seconds between the later of its start and the window's, and the earlier of its end and now; one
/// of another kind adds none, and with no incident there is none.
pub proof fn law_each_outage_adds_its_seconds(
    rows: Seq<Incident>,
    i: Incident,
    kind: Seq<char>,
    start: int,
    now: int,
)
    requires
        start < now,
    ensures
        down_secs(Seq::empty(), kind, start, now) == 0,
        ({
            let added = down_secs(rows.push(i), kind, start, now) - down_secs(rows, kind, start, now);
            let from = if i.start >= start {
                i.start as int
            } else {
                start
            };
            let to = if i.end is Some && i.end->0 <= now {
                i.end->0 as int
            } else {
                now
            };
            &&& i.kind@ != kind ==> added == 0
            &&& i.kind@ == kind && from <= to ==> added == to - from
            &&& i.kind@ == kind && from > to ==> added == 0
        }),
{
    assert(rows.push(i).drop_last() =~= rows);
}

// All the downtime of `rows` lies before `cut`, where every outage in them has ended by then.
proof fn lemma_down_before(rows: Seq<Incident>, kind: Seq<char>, start: int, now: int, cut: int)
    requires
        start < now,
        cut <= now,
        one_at_a_time(rows, kind),
        cut == now || forall|i: int|
            0 <= i < rows.len() && (#[trigger] rows[i]).kind@ == kind ==> rows[i].end is Some
                && rows[i].end->0 <= cut,
    ensures
        down_secs(rows, kind, start, now) <= (if cut > start {
            cut - start
        } else {
            0
        }),
    decreases rows.len(),
{
    if rows.len() > 0 {
        let shorter = rows.drop_last();
        let i = rows.last();
        assert forall|a: int, b: int|
            0 <= a < b < shorter.len() && (#[trigger] shorter[a]).kind@ == kind && (
            #[trigger] shorter[b]).kind@ == kind implies shorter[a].end is Some
            && shorter[a].end->0 <= shorter[b].start by {
            assert(rows[a].kind@ == kind && rows[b].kind@ == kind);
        }
        if i.kind@ == kind {
            assert(rows[rows.len() - 1] == i);
            let begin = if i.start < cut {
                i.start as int
            } else {
                cut
            };
            assert forall|a: int|
                begin != now && 0 <= a < shorter.len() && (#[trigger] shorter[a]).kind@
                    == kind implies shorter[a].end is Some && shorter[a].end->0 <= begin by {
                assert(rows[a].kind@ == kind);
                assert(rows[rows.len() - 1].kind@ == kind);
            }
            lemma_down_before(shorter, kind, start, now, begin);
        } else {
            assert forall|a: int|
                cut != now && 0 <= a < shorter.len() && (#[trigger] shorter[a]).kind@
                    == kind implies shorter[a].end is Some && shorter[a].end->0 <= cut by {
                assert(rows[a].kind@ == kind);
            }
            lemma_down_before(shorter, kind, start, now, cut);
        }
    }
}

// ---------------------------------------------------------------- one window's figures

/// The upper edge of the last bucket of a histogram that holds something, where it has one: the
/// bucket beyond the last edge has none.
pub open spec fn last_edge<F>(filled: Seq<bool>, le: Seq<F>) -> Option<F>
    decreases filled.len(),
{
    if filled.len() == 0 {
        None
    } else if filled.last() {
        if filled.len() - 1 < le.len() {
            Some(le[filled.len() - 1])
        } else {
            None
        }
    } else {
        last_edge(filled.drop_last(), le)
    }
}

fn edge_of<F: Copy>(filled: &Vec<bool>, le: &Vec<F>) -> (r: Option<F>)
    ensures
        r == last_edge(filled@, le@),
{
    let mut i: usize = filled.len();
    assert(filled@.take(filled@.len() as int) =~= filled@);
    while i > 0
        invariant
            i <= filled@.len(),
            last_edge(filled@, le@) == last_edge(filled@.take(i as int), le@),
        decreases i,
    {
        assert(filled@.take(i as int).drop_last() =~= filled@.take(i - 1));
        if filled[i - 1] {
            if i - 1 < le.len() {
                return Some(le[i - 1]);
            }
            return None;
        }
        i -= 1;
    }
    None
}

/// The longest prompt of a window: the gateway's own figure where it has seen one, else the edge of
/// the last bucket that holds something; and whether it is such an edge.
pub fn prompt_max<F: Copy>(gate: Option<F>, filled: &Vec<bool>, le: &Vec<F>) -> (r: (
    Option<F>,
    bool,
))
    ensures
        r == (match gate {
            Some(v) => (Some(v), false),
            None => (last_edge(filled@, le@), last_edge(filled@, le@) is Some),
        }),
{
    match gate {
        Some(v) => (Some(v), false),
        None => {
            let e = edge_of(filled, le);
            let is_edge = e.is_some();
            (e, is_edge)
        },
    }
}

/// What a GPU was held back for: its share of the window for heat, for its hardware where that was
/// recorded, and whether the owner has excluded it.
#[derive(Clone, Copy)]
pub struct GpuThrottle<F> {
    pub index: u32,
    pub thermal: F,
    pub hw: Option<F>,
    pub excluded: bool,
}

/// What was recorded of a GPU in a window.
#[derive(Clone, Copy)]
pub struct GpuRead<F> {
    pub index: u32,
    pub thermal: Option<F>,
    pub hw: Option<F>,
}

/// The GPUs that a window knows something of, in their order.
pub open spec fn throttled<F>(gpus: Seq<GpuRead<F>>, exclude: Seq<u32>) -> Seq<GpuThrottle<F>>
    decreases gpus.len(),
{
    if gpus.len() == 0 {
        Seq::empty()
    } else {
        let before = throttled(gpus.drop_last(), exclude);
        let g = gpus.last();
        match g.thermal {
            Some(t) => before.push(
                (GpuThrottle {
                    index: g.index,
                    thermal: t,
                    hw: g.hw,
                    excluded: exclude.contains(g.index),
                }),
            ),
            None => before,
        }
    }
}

fn has_index(v: &Vec<u32>, x: u32) -> (r: bool)
    ensures
        r == v@.contains(x),
{
    let mut i: usize = 0;
    while i < v.len()
        invariant
            i <= v@.len(),
            forall|k: int| 0 <= k < i ==> v@[k] != x,
        decreases v@.len() - i,
    {
        if v[i] == x {
            return true;
        }
        i += 1;
    }
    false
}

/// The GPUs that a window knows something of, in their order.
pub fn throttle<F: Copy>(gpus: &Vec<GpuRead<F>>, exclude: &Vec<u32>) -> (r: Vec<GpuThrottle<F>>)
    ensures
        r@ == throttled(gpus@, exclude@),
{
    let mut out: Vec<GpuThrottle<F>> = Vec::new();
    let mut i: usize = 0;
    while i < gpus.len()
        invariant
            i <= gpus@.len(),
            out@ == throttled(gpus@.take(i as int), exclude@),
        decreases gpus@.len() - i,
    {
        assert(gpus@.take(i + 1).drop_last() =~= gpus@.take(i as int));
        let g = gpus[i];
        if let Some(t) = g.thermal {
            out.push(
                GpuThrottle {
                    index: g.index,
                    thermal: t,
                    hw: g.hw,
                    excluded: has_index(exclude, g.index),
                },
            );
        }
        i += 1;
    }
    assert(gpus@.take(gpus@.len() as int) =~= gpus@);
    out
}

/// Since when each of the metrics of a window has been recorded, where it ever was.
#[derive(Clone, Copy, PartialEq, Eq, Structural, Debug)]
pub struct Firsts {
    pub tok_cached: Option<i64>,
    pub tok_prompt: Option<i64>,
    pub prefill: Option<i64>,
    pub e2e: Option<i64>,
    pub energy: Option<i64>,
    pub tok_gen: Option<i64>,
    pub tok_evicted: Option<i64>,
}

/// What a window reads and covers.
#[derive(Clone, Copy, PartialEq, Eq, Structural, Debug)]
pub struct WindowStats {
    pub span: Span,
    pub covered_secs: i64,
    /// from when cached tokens are set against prompt tokens
    pub cache_from: Option<i64>,
    /// from when the time of reading is set against all of it
    pub prefill_from: Option<i64>,
    /// from when energy is set against written tokens
    pub energy_from: Option<i64>,
    /// the seconds that evictions were counted for
    pub evicted_secs: Option<i64>,
}

/// A start as a value.
pub open spec fn start_view(t: Option<i64>) -> Option<int> {
    match t {
        Some(t) => Some(t as int),
        None => None,
    }
}

/// What a window of `secs` reads and covers.
pub fn window_stats(now: i64, secs: i64, first_sample_ts: i64, f: &Firsts) -> (r: WindowStats)
    requires
        0 <= secs,
        now - secs >= i64::MIN,
        now < i64::MAX,
        secs < i64::MAX,
    ensures
        r.span.from == now - secs,
        r.span.to == now + 1,
        r.span.res == tier_of(secs as int),
        r.covered_secs == between(now - later(first_sample_ts as int, now - secs), secs as int),
        start_view(r.cache_from) == both_start(r.span.from, f.tok_cached, f.tok_prompt),
        start_view(r.prefill_from) == both_start(r.span.from, f.prefill, f.e2e),
        start_view(r.energy_from) == both_start(r.span.from, f.energy, f.tok_gen),
        start_view(r.evicted_secs) == (match f.tok_evicted {
            None => None,
            Some(t) => Some(at_least_zero(now + 1 - later(now - secs, t as int))),
        }),
{
    let span = window(now, secs);
    WindowStats {
        span,
        covered_secs: covered_secs(now, secs, first_sample_ts),
        cache_from: ratio_from(span.from, f.tok_cached, f.tok_prompt),
        prefill_from: ratio_from(span.from, f.prefill, f.e2e),
        energy_from: ratio_from(span.from, f.energy, f.tok_gen),
        evicted_secs: kept_secs(span, f.tok_evicted),
    }
}

// ---------------------------------------------------------------- growth

/// Seconds in a week.
pub const WEEK: i64 = 604_800;

/// The two weeks that growth compares, and how many seconds of each were watched.
#[derive(Clone, Copy, PartialEq, Eq, Structural, Debug)]
pub struct GrowthSpans {
    pub prev_from: i64,
    pub now_from: i64,
    pub to: i64,
    pub prev_secs: i64,
    pub now_secs: i64,
}

/// `x`, or 0 where it is under 0.
pub open spec fn at_least_zero(x: int) -> int {
    if x > 0 {
        x
    } else {
        0
    }
}

/// The last seven days and the seven before them: nothing to compare where nothing of the earlier
/// week was watched.
pub fn growth(now: i64, first_sample_ts: i64) -> (r: Option<GrowthSpans>)
    requires
        now - 2 * WEEK >= i64::MIN,
        now < i64::MAX,
    ensures
        match r {
            Some(g) => {
                &&& g.now_from == now - WEEK
                &&& g.prev_from == now - 2 * WEEK
                &&& g.to == now + 1
                &&& g.prev_secs == g.now_from - later(first_sample_ts as int, g.prev_from as int)
                &&& g.prev_secs > 0
                &&& g.now_secs == at_least_zero(now - later(first_sample_ts as int, g.now_from as int))
            },
            None => now - WEEK <= later(first_sample_ts as int, now - 2 * WEEK),
        },
{
    let now_from: i64 = now - WEEK;
    let prev_from: i64 = now - 2 * WEEK;
    let prev_start: i64 = later_of(first_sample_ts, prev_from);
    if now_from <= prev_start {
        return None;
    }
    let now_start: i64 = later_of(first_sample_ts, now_from);
    let now_secs: i64 = if now > now_start {
        now - now_start
    } else {
        0
    };
    Some(
        GrowthSpans {
            prev_from,
            now_from,
            to: now + 1,
            prev_secs: now_from - prev_start,
            now_secs,
        },
    )
}

/// The most users at once in a week, from each of the counts that may hold it.
#[derive(Clone, Copy)]
pub struct Peaks<F> {
    /// on this machine
    pub here: Option<F>,
    /// over every machine of the gateway, where there were any
    pub gate: Option<F>,
    /// requests running at once
    pub running: Option<F>,
}

/// The peak that a week is judged by: this machine's own where both weeks have it, else the
/// gateway's, else the running requests.
pub open spec fn peak_of<F>(p: Peaks<F>, by_machine: bool, zero: F) -> F {
    match (if by_machine {
        p.here
    } else if p.gate is Some {
        p.gate
    } else {
        p.running
    }) {
        Some(v) => v,
        None => zero,
    }
}

fn peak<F: Copy>(p: Peaks<F>, by_machine: bool, zero: F) -> (r: F)
    ensures
        r == peak_of(p, by_machine, zero),
{
    let v: Option<F> = if by_machine {
        p.here
    } else if p.gate.is_some() {
        p.gate
    } else {
        p.running
    };
    match v {
        Some(v) => v,
        None => zero,
    }
}

/// The users of both weeks (the last, then the one before), and what is to be said of the figure: a
/// gateway's count over every machine is not passed off as this machine's. `gate_any` says whether
/// the gateway has counted anybody in the two weeks.
pub fn growth_users<F: Copy>(now: Peaks<F>, prev: Peaks<F>, gate_any: bool, zero: F) -> (r: (
    F,
    F,
    Option<String>,
))
    ensures
        ({
            let by_machine = now.here is Some && prev.here is Some;
            &&& r.0 == peak_of(now, by_machine, zero)
            &&& r.1 == peak_of(prev, by_machine, zero)
            &&& r.2 is Some == (!by_machine && gate_any)
            &&& r.2 is Some ==> r.2->0@
                == "gateway too old to split users by machine - counted across every machine it fronts"@
        }),
{
    let by_machine = now.here.is_some() && prev.here.is_some();
    let basis: Option<String> = if !by_machine && gate_any {
        Some(
            "gateway too old to split users by machine - counted across every machine it fronts".to_owned(),
        )
    } else {
        None
    };
    (peak(now, by_machine, zero), peak(prev, by_machine, zero), basis)
}

/// The two weeks are always counted in the same way: where this machine's own count is missing in
/// either, it is used in neither.
pub proof fn law_growth_compares_like_with_like<F>(now: Peaks<F>, prev: Peaks<F>, zero: F)
    requires
        now.here is None || prev.here is None,
    ensures
        ({
            let by_machine = now.here is Some && prev.here is Some;
            &&& peak_of(now, by_machine, zero) == peak_of((Peaks { here: None, ..now }), false, zero)
            &&& peak_of(prev, by_machine, zero) == peak_of(
                (Peaks { here: None, ..prev }),
                false,
                zero,
            )
        }),
{
}

/// A window that advice is given for: its name, its seconds, and whether it shows the growth.
pub struct Window {
    pub name: String,
    pub secs: i64,
    pub shows_growth: bool,
}

/// The windows that advice is given for. A day has no week to compare, so it shows no growth.
pub fn compute() -> (r: Vec<Window>)
    ensures
        r@.len() == 3,
        r@[0].name@ == "24h"@ && r@[0].secs == 86_400 && !r@[0].shows_growth,
        r@[1].name@ == "7d"@ && r@[1].secs == 7 * 86_400 && r@[1].shows_growth,
        r@[2].name@ == "30d"@ && r@[2].secs == 30 * 86_400 && r@[2].shows_growth,
{
    let mut v: Vec<Window> = Vec::new();
    v.push(Window { name: "24h".to_owned(), secs: 86_400, shows_growth: false });
    v.push(Window { name: "7d".to_owned(), secs: 604_800, shows_growth: true });
    v.push(Window { name: "30d".to_owned(), secs: 2_592_000, shows_growth: true });
    v
}

/// The seconds of a window that count as watched are those from the first sample on, each once: none
/// before it, none before the window, and none that is yet to come.
pub proof fn law_covered_are_the_watched_seconds(now: int, secs: int, first: int)
    requires
        0 <= secs,
    ensures
        ({
            let watched = Set::new(|t: int| now - secs <= t < now && first <= t);
            &&& watched.finite()
            &&& watched.len() == between(now - later(first, now - secs), secs)
        }),
{
    let watched = Set::new(|t: int| now - secs <= t < now && first <= t);
    let from = if first >= now - secs {
        first
    } else {
        now - secs
    };
    if from <= now {
        vstd::set_lib::lemma_int_range(from, now);
        assert(watched =~= vstd::set_lib::set_int_range(from, now));
    } else {
        assert(watched =~= Set::empty());
    }
}

/// A count is divided by the seconds of the window that it was kept for, each once.
pub proof fn law_kept_are_the_counted_seconds(from: int, to: int, first: int)
    ensures
        ({
            let kept = Set::new(|t: int| from <= t < to && first <= t);
            &&& kept.finite()
            &&& kept.len() == at_least_zero(to - later(from, first))
        }),
{
    let kept = Set::new(|t: int| from <= t < to && first <= t);
    let start = if first >= from {
        first
    } else {
        from
    };
    if start <= to {
        vstd::set_lib::lemma_int_range(start, to);
        assert(kept =~= vstd::set_lib::set_int_range(start, to));
    } else {
        assert(kept =~= Set::empty());
    }
}

/// A day is read by the minute, and what is longer by ten minutes.
pub proof fn law_a_day_is_read_by_the_minute(secs: int)
    ensures
        secs <= 24 * 60 * 60 <==> tier_of(secs) == 60,
        secs > 24 * 60 * 60 <==> tier_of(secs) == 600,
{
}

/// The edge is that of the last bucket that holds something, however many empty ones follow; there is
/// none where no bucket does, or where the last that does has no upper edge.
pub proof fn law_the_last_filled_bucket_has_the_edge<F>(filled: Seq<bool>, le: Seq<F>, i: int)
    requires
        0 <= i < filled.len(),
        filled[i],
        forall|k: int| i < k < filled.len() ==> !#[trigger] filled[k],
    ensures
        i < le.len() ==> last_edge(filled, le) == Some(le[i]),
        i >= le.len() ==> last_edge(filled, le) is None,
    decreases filled.len(),
{
    if i < filled.len() - 1 {
        assert(!filled[filled.len() - 1]);
        let rest = filled.drop_last();
        assert forall|k: int| i < k < rest.len() implies !#[trigger] rest[k] by {
            assert(rest[k] == filled[k]);
        }
        law_the_last_filled_bucket_has_the_edge(rest, le, i);
    }
}

/// A histogram in which no bucket holds anything has no edge.
pub proof fn law_an_empty_histogram_has_no_edge<F>(filled: Seq<bool>, le: Seq<F>)
    requires
        forall|k: int| 0 <= k < filled.len() ==> !#[trigger] filled[k],
    ensures
        last_edge(filled, le) is None,
    decreases filled.len(),
{
    if filled.len() > 0 {
        assert(!filled[filled.len() - 1]);
        let rest = filled.drop_last();
        assert forall|k: int| 0 <= k < rest.len() implies !#[trigger] rest[k] by {
            assert(rest[k] == filled[k]);
        }
        law_an_empty_histogram_has_no_edge(rest, le);
    }
}

/// A GPU is told of where its heat was recorded, with its own figures, and marked as excluded where the
/// owner has excluded it; one without a record is left out, and no other is changed by it.
pub proof fn law_a_gpu_is_told_by_its_own_record<F>(
    gpus: Seq<GpuRead<F>>,
    g: GpuRead<F>,
    exclude: Seq<u32>,
)
    ensures
        throttled(Seq::<GpuRead<F>>::empty(), exclude).len() == 0,
        g.thermal is None ==> throttled(gpus.push(g), exclude) == throttled(gpus, exclude),
        g.thermal is Some ==> {
            let before = throttled(gpus, exclude);
            let after = throttled(gpus.push(g), exclude);
            &&& after.len() == before.len() + 1
            &&& after.drop_last() == before
            &&& after.last().index == g.index
            &&& after.last().thermal == g.thermal->0
            &&& after.last().hw == g.hw
            &&& after.last().excluded <==> exists|i: int|
                0 <= i < exclude.len() && #[trigger] exclude[i] == g.index
        },
{
    assert(gpus.push(g).drop_last() =~= gpus);
    assert(throttled(gpus, exclude) =~= throttled(gpus.push(g), exclude).take(
        throttled(gpus, exclude).len() as int,
    ));
}

/// A week is judged by this machine's own peak where that is asked for, else by the gateway's where it
/// has one, else by the requests that ran; what was never counted is zero.
pub proof fn law_a_peak_is_the_best_count_there_is<F>(p: Peaks<F>, zero: F)
    ensures
        p.here is Some ==> peak_of(p, true, zero) == p.here->0,
        p.gate is Some ==> peak_of(p, false, zero) == p.gate->0,
        p.gate is None && p.running is Some ==> peak_of(p, false, zero) == p.running->0,
        p.gate is None && p.running is None ==> peak_of(p, false, zero) == zero,
        p.here is None ==> peak_of(p, true, zero) == zero,
{
}

/// Growth compares the last seven days with the seven before, each by the seconds of it that were
/// watched; where nothing of the earlier week was, there is nothing to compare.
pub proof fn law_growth_compares_two_weeks(now: i64, first: i64, r: Option<GrowthSpans>)
    requires
        now - 2 * WEEK >= i64::MIN,
        now < i64::MAX,
        call_ensures(growth, (now, first), r),
    ensures
        r is Some <==> first < now - 7 * 86_400,
        r matches Some(g) ==> {
            &&& g.now_from - g.prev_from == 7 * 86_400
            &&& now - g.now_from == 7 * 86_400
            &&& g.to == now + 1
            &&& 0 < g.prev_secs <= 7 * 86_400
            &&& first <= g.prev_from ==> g.prev_secs == 7 * 86_400
            &&& first > g.prev_from ==> g.prev_secs == g.now_from - first
            &&& g.now_secs == 7 * 86_400
        },
{
}

/// The longest prompt is the gateway's own figure where it has one, and is then no edge of a bucket.
pub proof fn law_a_seen_prompt_is_no_edge<F: Copy>(
    gate: Option<F>,
    filled: Vec<bool>,
    le: Vec<F>,
    r: (Option<F>, bool),
)
    requires
        call_ensures(prompt_max::<F>, (gate, &filled, &le), r),
    ensures
        gate is Some ==> r.0 == gate && !r.1,
        gate is None ==> r.0 == last_edge(filled@, le@) && (r.1 <==> r.0 is Some),
{
}

} // verus!
