//! What electricity has cost: which stored readings count, for which days, and what may be claimed
//! of them. The prices themselves come from the rate table.

use crate::text::{parse_i64, parse_int, same};
use vstd::prelude::*;
use vstd::string::*;

verus! {

/// A stored sample, as far as the cost reads it.
pub struct PowerSample<F> {
    pub ts: i64,
    /// each GPU's watts, where it reported them
    pub power: Vec<Option<F>>,
    /// whether the engine had something running; nothing where it did not answer
    pub running: Option<bool>,
}

/// The readings that are there.
pub open spec fn present<F>(v: Seq<Option<F>>) -> Seq<F>
    decreases v.len(),
{
    if v.len() == 0 {
        Seq::empty()
    } else {
        match v.last() {
            Some(x) => present(v.drop_last()).push(x),
            None => present(v.drop_last()),
        }
    }
}

/// The readings that are there.
pub fn readings<F: Copy>(v: &Vec<Option<F>>) -> (r: Vec<F>)
    ensures
        r@ == present(v@),
{
    let mut out: Vec<F> = Vec::new();
    let mut i: usize = 0;
    while i < v.len()
        invariant
            i <= v@.len(),
            out@ == present(v@.take(i as int)),
        decreases v@.len() - i,
    {
        assert(v@.take(i + 1).drop_last() =~= v@.take(i as int));
        if let Some(x) = v[i] {
            out.push(x);
        }
        i += 1;
    }
    assert(v@.take(v@.len() as int) =~= v@);
    out
}

/// A step of a day's power: when, what each GPU drew, and whether the engine had nothing to do.
pub struct Watts<F> {
    pub ts: i64,
    pub power: Vec<F>,
    pub idle: bool,
}

/// Whether a step says what its sample says: an engine that did not answer has nothing to do.
pub open spec fn is_step<F>(w: Watts<F>, s: PowerSample<F>) -> bool {
    &&& w.ts == s.ts
    &&& w.power@ == present(s.power@)
    &&& w.idle == (s.running != Some(true))
}

/// Whether a sample is a step at all: one without a reading is left out, never taken for no power.
pub open spec fn is_metered<F>(s: PowerSample<F>) -> bool {
    present(s.power@).len() > 0
}

/// Whether the steps are those of the metered samples, in their order.
pub open spec fn are_steps<F>(ws: Seq<Watts<F>>, ss: Seq<PowerSample<F>>) -> bool
    decreases ss.len(),
{
    if ss.len() == 0 {
        ws.len() == 0
    } else if is_metered(ss.last()) {
        ws.len() > 0 && is_step(ws.last(), ss.last()) && are_steps(ws.drop_last(), ss.drop_last())
    } else {
        are_steps(ws, ss.drop_last())
    }
}

/// The steps of the samples that have a reading.
pub fn watt_series_with_activity<F: Copy>(samples: &Vec<PowerSample<F>>) -> (r: Vec<Watts<F>>)
    ensures
        are_steps(r@, samples@),
{
    let mut out: Vec<Watts<F>> = Vec::new();
    let mut i: usize = 0;
    while i < samples.len()
        invariant
            i <= samples@.len(),
            are_steps(out@, samples@.take(i as int)),
        decreases samples@.len() - i,
    {
        assert(samples@.take(i + 1).drop_last() =~= samples@.take(i as int));
        let power = readings(&samples[i].power);
        if power.len() > 0 {
            let idle = match samples[i].running {
                Some(b) => !b,
                None => true,
            };
            let ghost before = out@;
            out.push(Watts { ts: samples[i].ts, power, idle });
            assert(out@.drop_last() =~= before);
        }
        i += 1;
    }
    assert(samples@.take(samples@.len() as int) =~= samples@);
    out
}

// ---------------------------------------------------------------- what a status may say

/// Energy and its price over a window, as the rate table gives them.
#[derive(Clone, Copy)]
pub struct Bill<F> {
    pub kwh: F,
    pub usd: F,
    pub intervals_priced: u64,
    pub earliest_ts: Option<i64>,
}

/// What a day's tokens cost per million, where there were any.
#[derive(Clone, Copy)]
pub struct TokenPrices<F> {
    /// all of the day's energy over the tokens written
    pub generated: Option<F>,
    /// all of the day's energy over the tokens read
    pub prompt: Option<F>,
    /// the energy of work over the tokens that were computed
    pub real_work: Option<F>,
}

/// What the status says of a day's cost.
#[derive(Clone, Copy)]
pub struct CostStatus<F> {
    pub today_kwh: Option<F>,
    pub today_usd: Option<F>,
    pub today_usd_per_million_generated_tokens: Option<F>,
    pub today_usd_per_million_prompt_tokens: Option<F>,
    pub today_usd_per_million_real_work_tokens: Option<F>,
    pub today_standby_kwh: Option<F>,
    pub today_standby_usd: Option<F>,
    pub last_24h_kwh: Option<F>,
    pub last_24h_usd: Option<F>,
    pub today_covered_secs: Option<i64>,
    pub last_24h_covered_secs: Option<i64>,
}

/// A figure of a window that nothing was priced in is not said.
pub open spec fn said<F>(priced: u64, v: Option<F>) -> Option<F> {
    if priced > 0 {
        v
    } else {
        None
    }
}

fn say<F: Copy>(priced: u64, v: Option<F>) -> (r: Option<F>)
    ensures
        r == said(priced, v),
{
    if priced > 0 {
        v
    } else {
        None
    }
}

/// How much of a window is covered: from its first priced reading to now.
pub open spec fn covered_secs(now: i64, earliest: Option<i64>) -> Option<int> {
    match earliest {
        Some(t) => Some(if now > t { now - t } else { 0 }),
        None => None,
    }
}

fn covered(now: i64, earliest: Option<i64>) -> (r: Option<i64>)
    requires
        earliest is Some ==> now - earliest->0 <= i64::MAX,
    ensures
        match covered_secs(now, earliest) {
            Some(n) => r == Some(n as i64) && n <= i64::MAX,
            None => r is None,
        },
{
    match earliest {
        None => None,
        Some(t) => if now > t {
            Some((now as i128 - t as i128) as i64)
        } else {
            Some(0)
        },
    }
}

/// The windows that are read: today, to the reading of this second, and the last 24 hours.
pub fn cost_windows(now: i64, midnight: i64) -> (r: ((i64, i64), (i64, i64)))
    requires
        now - 86_400 >= i64::MIN,
        now < i64::MAX,
    ensures
        r.0.0 == midnight && r.0.1 == now + 1,
        r.1.0 == now - 86_400 && r.1.1 == now + 1,
{
    ((midnight, now + 1), (now - 86_400, now + 1))
}

/// What the status says: only windows that were priced, work and standby each by their own.
pub fn compute<F: Copy>(
    now: i64,
    today: Bill<F>,
    work: Bill<F>,
    standby: Bill<F>,
    last_24h: Bill<F>,
    per: TokenPrices<F>,
) -> (r: CostStatus<F>)
    requires
        today.earliest_ts is Some ==> now - today.earliest_ts->0 <= i64::MAX,
        last_24h.earliest_ts is Some ==> now - last_24h.earliest_ts->0 <= i64::MAX,
    ensures
        r.today_kwh == said(today.intervals_priced, Some(today.kwh)),
        r.today_usd == said(today.intervals_priced, Some(today.usd)),
        r.today_usd_per_million_generated_tokens == said(today.intervals_priced, per.generated),
        r.today_usd_per_million_prompt_tokens == said(today.intervals_priced, per.prompt),
        r.today_usd_per_million_real_work_tokens == said(work.intervals_priced, per.real_work),
        r.today_standby_kwh == said(standby.intervals_priced, Some(standby.kwh)),
        r.today_standby_usd == said(standby.intervals_priced, Some(standby.usd)),
        r.last_24h_kwh == said(last_24h.intervals_priced, Some(last_24h.kwh)),
        r.last_24h_usd == said(last_24h.intervals_priced, Some(last_24h.usd)),
        match r.today_covered_secs {
            Some(n) => covered_secs(now, today.earliest_ts) == Some(n as int),
            None => today.earliest_ts is None,
        },
        match r.last_24h_covered_secs {
            Some(n) => covered_secs(now, last_24h.earliest_ts) == Some(n as int),
            None => last_24h.earliest_ts is None,
        },
{
    CostStatus {
        today_kwh: say(today.intervals_priced, Some(today.kwh)),
        today_usd: say(today.intervals_priced, Some(today.usd)),
        today_usd_per_million_generated_tokens: say(today.intervals_priced, per.generated),
        today_usd_per_million_prompt_tokens: say(today.intervals_priced, per.prompt),
        today_usd_per_million_real_work_tokens: say(work.intervals_priced, per.real_work),
        today_standby_kwh: say(standby.intervals_priced, Some(standby.kwh)),
        today_standby_usd: say(standby.intervals_priced, Some(standby.usd)),
        last_24h_kwh: say(last_24h.intervals_priced, Some(last_24h.kwh)),
        last_24h_usd: say(last_24h.intervals_priced, Some(last_24h.usd)),
        today_covered_secs: covered(now, today.earliest_ts),
        last_24h_covered_secs: covered(now, last_24h.earliest_ts),
    }
}

// ---------------------------------------------------------------- by the day

/// A stored bucket of energy: when, the local midnight of its day, and how much.
#[derive(Clone, Copy)]
pub struct EnergyRow<F> {
    pub ts: i64,
    pub day: i64,
    pub kwh: F,
}

/// The buckets of one local day.
pub struct DayRows<F> {
    pub day: i64,
    pub rows: Vec<(i64, F)>,
}

/// The buckets of one local day, in their order.
pub open spec fn rows_of<F>(rows: Seq<EnergyRow<F>>, day: i64) -> Seq<(i64, F)>
    decreases rows.len(),
{
    if rows.len() == 0 {
        Seq::empty()
    } else {
        let before = rows_of(rows.drop_last(), day);
        if rows.last().day == day {
            before.push((rows.last().ts, rows.last().kwh))
        } else {
            before
        }
    }
}

/// Whether `days` are the days of `rows`: in order, each once, each with all of its buckets, and no
/// day without one.
pub open spec fn are_days<F>(days: Seq<DayRows<F>>, rows: Seq<EnergyRow<F>>) -> bool {
    &&& forall|i: int, j: int|
        0 <= i < j < days.len() ==> #[trigger] days[i].day < #[trigger] days[j].day
    &&& forall|i: int|
        0 <= i < days.len() ==> (#[trigger] days[i]).rows@ == rows_of(rows, days[i].day)
            && days[i].rows@.len() > 0
    &&& forall|k: int|
        0 <= k < rows.len() ==> has_day(days, (#[trigger] rows[k]).day)
}

/// Whether some day is `day`.
pub open spec fn has_day<F>(days: Seq<DayRows<F>>, day: i64) -> bool {
    exists|i: int| 0 <= i < days.len() && (#[trigger] days[i]).day == day
}

/// The buckets of energy, by their local days, in order.
pub fn by_day<F: Copy>(rows: &Vec<EnergyRow<F>>) -> (r: Vec<DayRows<F>>)
    ensures
        are_days(r@, rows@),
{
    let mut days: Vec<DayRows<F>> = Vec::new();
    let mut i: usize = 0;
    while i < rows.len()
        invariant
            i <= rows@.len(),
            are_days(days@, rows@.take(i as int)),
        decreases rows@.len() - i,
    {
        let row = rows[i];
        let ghost taken = rows@.take(i as int);
        let ghost next = rows@.take(i + 1);
        assert(next.drop_last() =~= taken);
        assert(next.last() == row);
        // the first day that is not before the row's
        let mut at: usize = 0;
        while at < days.len() && days[at].day < row.day
            invariant
                at <= days@.len(),
                forall|k: int| 0 <= k < at ==> (#[trigger] days@[k]).day < row.day,
            decreases days@.len() - at,
        {
            at += 1;
        }
        let ghost before = days@;
        if at < days.len() && days[at].day == row.day {
            let mut d = days.remove(at);
            d.rows.push((row.ts, row.kwh));
            days.insert(at, d);
            proof {
                assert(days@ =~= before.update(at as int, d));
                lemma_day_grows(before, days@, taken, next, at as int);
            }
        } else {
            let mut v: Vec<(i64, F)> = Vec::new();
            v.push((row.ts, row.kwh));
            days.insert(at, DayRows { day: row.day, rows: v });
            proof {
                assert(days@ =~= before.insert(at as int, days@[at as int]));
                lemma_day_begins(before, days@, taken, next, at as int);
            }
        }
        i += 1;
    }
    assert(rows@.take(rows@.len() as int) =~= rows@);
    days
}

proof fn lemma_no_rows<F>(rows: Seq<EnergyRow<F>>, day: i64)
    requires
        forall|k: int| 0 <= k < rows.len() ==> (#[trigger] rows[k]).day != day,
    ensures
        rows_of(rows, day).len() == 0,
    decreases rows.len(),
{
    if rows.len() > 0 {
        assert(rows[rows.len() - 1].day != day);
        assert forall|k: int| 0 <= k < rows.drop_last().len() implies (
        #[trigger] rows.drop_last()[k]).day != day by {
            assert(rows[k].day != day);
        }
        lemma_no_rows(rows.drop_last(), day);
    }
}

proof fn lemma_day_grows<F>(
    before: Seq<DayRows<F>>,
    after: Seq<DayRows<F>>,
    taken: Seq<EnergyRow<F>>,
    next: Seq<EnergyRow<F>>,
    at: int,
)
    requires
        are_days(before, taken),
        next.len() > 0,
        next.drop_last() == taken,
        0 <= at < before.len(),
        before[at].day == next.last().day,
        after == before.update(at, after[at]),
        after[at].day == before[at].day,
        after[at].rows@ == before[at].rows@.push((next.last().ts, next.last().kwh)),
    ensures
        are_days(after, next),
{
    assert forall|i: int, j: int| 0 <= i < j < after.len() implies #[trigger] after[i].day
        < #[trigger] after[j].day by {
        assert(before[i].day < before[j].day);
    }
    assert forall|i: int| 0 <= i < after.len() implies (#[trigger] after[i]).rows@ == rows_of(
        next,
        after[i].day,
    ) && after[i].rows@.len() > 0 by {
        assert(before[i].rows@ == rows_of(taken, before[i].day));
        if i != at {
            assert(before[i].day != before[at].day) by {
                if i < at {
                    assert(before[i].day < before[at].day);
                } else {
                    assert(before[at].day < before[i].day);
                }
            }
        }
    }
    assert forall|k: int| 0 <= k < next.len() implies has_day(after, (#[trigger] next[k]).day) by {
        if k == next.len() - 1 {
            assert(after[at].day == next[k].day);
        } else {
            assert(next[k] == taken[k]);
            assert(has_day(before, taken[k].day));
            let w = choose|w: int| 0 <= w < before.len() && (#[trigger] before[w]).day == taken[k].day;
            assert(after[w].day == next[k].day);
        }
    }
}

proof fn lemma_day_begins<F>(
    before: Seq<DayRows<F>>,
    after: Seq<DayRows<F>>,
    taken: Seq<EnergyRow<F>>,
    next: Seq<EnergyRow<F>>,
    at: int,
)
    requires
        are_days(before, taken),
        next.len() > 0,
        next.drop_last() == taken,
        0 <= at <= before.len(),
        forall|k: int| 0 <= k < at ==> (#[trigger] before[k]).day < next.last().day,
        at < before.len() ==> before[at].day > next.last().day,
        after == before.insert(at, after[at]),
        after[at].day == next.last().day,
        after[at].rows@ == seq![(next.last().ts, next.last().kwh)],
    ensures
        are_days(after, next),
{
    let day = next.last().day;
    assert(after.len() == before.len() + 1);
    assert forall|k: int| 0 <= k < before.len() implies (#[trigger] before[k]).day != day by {
        if k > at {
            assert(before[at].day < before[k].day);
        }
    }
    assert forall|k: int| 0 <= k < taken.len() implies (#[trigger] taken[k]).day != day by {
        assert(has_day(before, taken[k].day));
        let w = choose|w: int| 0 <= w < before.len() && (#[trigger] before[w]).day == taken[k].day;
    }
    lemma_no_rows(taken, day);
    assert forall|i: int, j: int| 0 <= i < j < after.len() implies #[trigger] after[i].day
        < #[trigger] after[j].day by {
        let a = if i < at { i } else { i - 1 };
        let b = if j < at { j } else { j - 1 };
        if i != at && j != at {
            assert(before[a].day < before[b].day);
        } else if i == at {
            assert(after[j] == before[b]);
            if b > at {
                assert(before[at].day < before[b].day);
            }
        }
    }
    assert forall|i: int| 0 <= i < after.len() implies (#[trigger] after[i]).rows@ == rows_of(
        next,
        after[i].day,
    ) && after[i].rows@.len() > 0 by {
        if i == at {
            assert(rows_of(next, day) =~= seq![(next.last().ts, next.last().kwh)]);
        } else {
            let a = if i < at { i } else { i - 1 };
            assert(after[i] == before[a]);
            assert(before[a].rows@ == rows_of(taken, before[a].day));
        }
    }
    assert forall|k: int| 0 <= k < next.len() implies has_day(after, (#[trigger] next[k]).day) by {
        if k == next.len() - 1 {
            assert(after[at].day == next[k].day);
        } else {
            assert(next[k] == taken[k]);
            assert(has_day(before, taken[k].day));
            let w = choose|w: int| 0 <= w < before.len() && (#[trigger] before[w]).day == taken[k].day;
            if w < at {
                assert(after[w].day == next[k].day);
            } else {
                assert(after[w + 1].day == next[k].day);
            }
        }
    }
}

/// What a day claims, from how many of its ten-minute buckets were priced: the seconds they stand
/// for, or nothing, never a day of no cost.
pub fn daily_spend(intervals_priced: u64) -> (r: Option<i64>)
    requires
        intervals_priced * 600 <= i64::MAX,
    ensures
        r == (if intervals_priced > 0 {
            Some((intervals_priced * 600) as i64)
        } else {
            None::<i64>
        }),
{
    if intervals_priced > 0 {
        Some(intervals_priced as i64 * 600)
    } else {
        None
    }
}

/// How many days before today the chart reaches.
pub const CHART_DAYS: u32 = 31;

/// From when the buckets are read: from the year's first day, or from the chart's where that is
/// earlier.
pub fn spending(chart_from: i64, year_from: i64) -> (r: i64)
    ensures
        r == (if year_from < chart_from {
            year_from
        } else {
            chart_from
        }),
{
    if year_from < chart_from {
        year_from
    } else {
        chart_from
    }
}

/// The days that the chart shows, of those at `days`.
pub open spec fn charted(days: Seq<i64>, chart_from: i64) -> Seq<i64> {
    days.filter(|d: i64| d >= chart_from)
}

/// The days that the chart shows, of those at `days`.
pub fn chart_days(days: &Vec<i64>, chart_from: i64) -> (r: Vec<i64>)
    ensures
        r@ == charted(days@, chart_from),
{
    let mut out: Vec<i64> = Vec::new();
    let mut i: usize = 0;
    while i < days.len()
        invariant
            i <= days@.len(),
            out@ == charted(days@.take(i as int), chart_from),
        decreases days@.len() - i,
    {
        proof {
            reveal(Seq::filter);
            assert(days@.take(i + 1).drop_last() =~= days@.take(i as int));
        }
        if days[i] >= chart_from {
            out.push(days[i]);
        }
        i += 1;
    }
    assert(days@.take(days@.len() as int) =~= days@);
    out
}

// ---------------------------------------------------------------- the calendar

/// The number that a calendar field writes, 1 where it writes none.
pub open spec fn field(text: Seq<char>) -> int {
    match parse_int(text, true) {
        Some(n) if i64::MIN <= n <= i64::MAX => n,
        _ => 1,
    }
}

/// How many days lie between the start of a period and the day that has this number in it.
pub open spec fn days_into(text: Seq<char>) -> int {
    if field(text) > 1 {
        field(text) - 1
    } else {
        0
    }
}

fn days_before(midnight: i64, text: &str) -> (r: i64)
    requires
        midnight - days_into(text@) * 86_400 >= i64::MIN,
    ensures
        r == midnight - days_into(text@) * 86_400,
{
    let n: i64 = match parse_i64(text) {
        Some(n) => n,
        None => 1,
    };
    let into: i128 = if n > 1 {
        n as i128 - 1
    } else {
        0
    };
    (midnight as i128 - into * 86_400) as i64
}

/// An instant around noon of the day that lies `days` before the one that starts at `midnight`, or
/// behind it where `days` is negative. Whole days back from a midnight may lie an hour off where the
/// clocks were changed; an hour off noon is the same day.
pub open spec fn noon_before(midnight: int, days: int) -> int {
    midnight - days * 86_400 + 43_200
}

/// An instant around noon of the day that lies `days` before today, whose local midnight that day
/// starts at.
pub fn day_before(midnight: i64, days: u32) -> (r: i64)
    requires
        midnight - days * 86_400 >= i64::MIN,
        midnight + 43_200 <= i64::MAX,
    ensures
        r == noon_before(midnight as int, days as int),
{
    (midnight as i128 - days as i128 * 86_400 + 43_200) as i64
}

/// An instant around noon of the week's Monday, whose local midnight the week starts at, from today's
/// midnight and today's number in the week.
pub fn week_start(midnight: i64, day_of_week: &str) -> (r: i64)
    requires
        midnight - days_into(day_of_week@) * 86_400 >= i64::MIN,
        midnight + 43_200 <= i64::MAX,
    ensures
        r == noon_before(midnight as int, days_into(day_of_week@)),
{
    days_before(midnight, day_of_week) + 43_200
}

/// An instant around noon of the year's first day, whose local midnight the year starts at.
pub fn year_start(midnight: i64, day_of_year: &str) -> (r: i64)
    requires
        midnight - days_into(day_of_year@) * 86_400 >= i64::MIN,
        midnight + 43_200 <= i64::MAX,
    ensures
        r == noon_before(midnight as int, days_into(day_of_year@)),
{
    days_before(midnight, day_of_year) + 43_200
}

/// An instant around noon of the month's first day, whose local midnight the month starts at, and how
/// many of the month's days have come, today among them.
pub fn month_start(midnight: i64, day_of_month: &str) -> (r: (i64, i64))
    requires
        midnight - days_into(day_of_month@) * 86_400 >= i64::MIN,
        midnight + 43_200 <= i64::MAX,
    ensures
        r.0 == noon_before(midnight as int, days_into(day_of_month@)),
        r.1 == field(day_of_month@),
{
    let n: i64 = match parse_i64(day_of_month) {
        Some(n) => n,
        None => 1,
    };
    (days_before(midnight, day_of_month) + 43_200, n)
}

/// An instant around noon of the day that lies `i` days behind the 29th of the month that starts at
/// the local midnight `first`.
pub fn month_day(first: i64, i: u32) -> (r: i64)
    requires
        first + (28 + i) * 86_400 + 43_200 <= i64::MAX,
    ensures
        r == noon_before(first as int, -28 - i),
{
    (first as i128 + (28 + i as i128) * 86_400 + 43_200) as i64
}

/// A noon lies inside its day, an hour or more from either end, wherever changes of the clocks have
/// moved that day's midnight by no more than ten hours: the midnight before it is the day's own.
pub proof fn law_noon_is_inside_its_day(midnight: int, days: int, own: int, length: int)
    requires
        -36_000 <= own - (midnight - days * 86_400) <= 36_000,
        length >= 82_800,
    ensures
        own + 3_600 <= noon_before(midnight, days) <= own + length - 3_600,
{
}

/// The days of a month: `after` is the month of the 29th day and of those behind it, and the first
/// that is another month ends this one.
pub fn month_bounds(this_month: &str, after: &Vec<String>) -> (r: Option<i64>)
    requires
        28 + after@.len() <= i64::MAX,
    ensures
        match r {
            Some(n) => 28 <= n < 28 + after@.len() && after@[n - 28]@ != this_month@ && forall|i: int|
                0 <= i < n - 28 ==> (#[trigger] after@[i])@ == this_month@,
            None => forall|i: int| 0 <= i < after@.len() ==> (#[trigger] after@[i])@ == this_month@,
        },
{
    let mut i: usize = 0;
    while i < after.len()
        invariant
            i <= after@.len(),
            28 + after@.len() <= i64::MAX,
            forall|k: int| 0 <= k < i ==> (#[trigger] after@[k])@ == this_month@,
        decreases after@.len() - i,
    {
        if !same(after[i].as_str(), this_month) {
            return Some(28 + i as i64);
        }
        i += 1;
    }
    None
}

/// A GPU's reading is among those that are there exactly where it gave one, in the GPUs' order.
pub proof fn law_a_missing_reading_is_not_there<F>(v: Seq<Option<F>>, x: F)
    ensures
        present(Seq::<Option<F>>::empty()).len() == 0,
        present(v.push(None)) == present(v),
        present(v.push(Some(x))) == present(v).push(x),
{
    assert(v.push(None).drop_last() =~= v);
    assert(v.push(Some(x)).drop_last() =~= v);
}

proof fn lemma_present_len<F>(v: Seq<Option<F>>)
    ensures
        present(v).len() > 0 <==> exists|i: int| 0 <= i < v.len() && (#[trigger] v[i]) is Some,
    decreases v.len(),
{
    if v.len() > 0 {
        let rest = v.drop_last();
        lemma_present_len(rest);
        let last = v[v.len() - 1];
        if last is None {
            if present(v).len() > 0 {
                let i = choose|i: int| 0 <= i < rest.len() && (#[trigger] rest[i]) is Some;
                assert(v[i] is Some);
            }
            if exists|i: int| 0 <= i < v.len() && (#[trigger] v[i]) is Some {
                let i = choose|i: int| 0 <= i < v.len() && (#[trigger] v[i]) is Some;
                assert(rest[i] is Some);
            }
        }
    }
}

/// A sample in which some GPU gave a reading is a step of its own, at its own time, and the engine had
/// work in it only where it said so; a sample in which none did is no step, not one of no power.
pub proof fn law_a_metered_sample_is_a_step<F>(
    ws: Seq<Watts<F>>,
    w: Watts<F>,
    ss: Seq<PowerSample<F>>,
    s: PowerSample<F>,
)
    ensures
        (exists|i: int| 0 <= i < s.power@.len() && (#[trigger] s.power@[i]) is Some) ==> (are_steps(
            ws.push(w),
            ss.push(s),
        ) <==> are_steps(ws, ss) && w.ts == s.ts && w.power@ == present(s.power@) && (!w.idle
            <==> s.running == Some(true))),
        (exists|i: int| 0 <= i < s.power@.len() && (#[trigger] s.power@[i]) is Some) ==> !are_steps(
            Seq::<Watts<F>>::empty(),
            ss.push(s),
        ),
        (forall|i: int| 0 <= i < s.power@.len() ==> (#[trigger] s.power@[i]) is None) ==> (are_steps(
            ws,
            ss.push(s),
        ) <==> are_steps(ws, ss)),
{
    lemma_present_len(s.power@);
    assert(ss.push(s).drop_last() =~= ss);
    assert(ws.push(w).drop_last() =~= ws);
}

/// Where nothing was priced nothing is said, and where something was, what is known is said as it is. A
/// window is covered from its first priced reading to now, and never for less than no time.
pub proof fn law_only_what_was_priced_is_said<F>(priced: u64, v: Option<F>, now: i64, t: i64)
    ensures
        priced == 0 ==> said(priced, v) is None,
        priced > 0 ==> said(priced, v) == v,
        covered_secs(now, None) is None,
        t <= now ==> covered_secs(now, Some(t)) == Some(now - t),
        t > now ==> covered_secs(now, Some(t)) == Some(0int),
{
}

/// Whether a bucket of this time and energy is one of a day's.
pub open spec fn has_bucket<F>(rows: Seq<EnergyRow<F>>, day: i64, b: (i64, F)) -> bool {
    exists|k: int|
        0 <= k < rows.len() && (#[trigger] rows[k]).day == day && rows[k].ts == b.0 && rows[k].kwh
            == b.1
}

/// Whether a bucket stands in a day.
pub open spec fn stands_in<F>(days: Seq<DayRows<F>>, day: i64, b: (i64, F)) -> bool {
    exists|i: int|
        0 <= i < days.len() && (#[trigger] days[i]).day == day && days[i].rows@.contains(b)
}

proof fn lemma_rows_of<F>(rows: Seq<EnergyRow<F>>, day: i64, b: (i64, F))
    ensures
        rows_of(rows, day).contains(b) <==> has_bucket(rows, day, b),
    decreases rows.len(),
{
    if rows.len() > 0 {
        let rest = rows.drop_last();
        let last = rows[rows.len() - 1];
        lemma_rows_of(rest, day, b);
        let (old, all) = (rows_of(rest, day), rows_of(rows, day));
        if has_bucket(rest, day, b) {
            let k = choose|k: int|
                0 <= k < rest.len() && (#[trigger] rest[k]).day == day && rest[k].ts == b.0
                    && rest[k].kwh == b.1;
            assert(rows[k] == rest[k]);
            let j = choose|j: int| 0 <= j < old.len() && old[j] == b;
            assert(all[j] == b);
        } else if last.day == day && last.ts == b.0 && last.kwh == b.1 {
            assert(all[all.len() - 1] == b);
        } else {
            if has_bucket(rows, day, b) {
                let k = choose|k: int|
                    0 <= k < rows.len() && (#[trigger] rows[k]).day == day && rows[k].ts == b.0
                        && rows[k].kwh == b.1;
                assert(rest[k] == rows[k]);
            }
            if all.contains(b) {
                let j = choose|j: int| 0 <= j < all.len() && all[j] == b;
                assert(old[j] == b);
            }
        }
    }
}

/// Each bucket is in its own day, and nothing else is in a day: a bucket's time and energy stand in the
/// day it belongs to, and what stands in a day is a bucket of that day. No day is listed twice.
pub proof fn law_each_bucket_is_in_its_day<F>(
    days: Seq<DayRows<F>>,
    rows: Seq<EnergyRow<F>>,
    day: i64,
    b: (i64, F),
)
    requires
        are_days(days, rows),
    ensures
        stands_in(days, day, b) <==> has_bucket(rows, day, b),
        forall|i: int, j: int| 0 <= i < j < days.len() ==> #[trigger] days[i].day < #[trigger] days[j].day,
{
    lemma_rows_of(rows, day, b);
    if stands_in(days, day, b) {
        let i = choose|i: int|
            0 <= i < days.len() && (#[trigger] days[i]).day == day && days[i].rows@.contains(b);
        assert(days[i].rows@ == rows_of(rows, day));
    }
    if has_bucket(rows, day, b) {
        let k = choose|k: int|
            0 <= k < rows.len() && (#[trigger] rows[k]).day == day && rows[k].ts == b.0
                && rows[k].kwh == b.1;
        assert(has_day(days, rows[k].day));
        let i = choose|i: int| 0 <= i < days.len() && (#[trigger] days[i]).day == day;
        assert(days[i].rows@ == rows_of(rows, day));
    }
}

/// One bucket more is one bucket more in its own day, behind those it has, and none in another.
pub proof fn law_a_bucket_is_counted_once<F>(rows: Seq<EnergyRow<F>>, row: EnergyRow<F>, day: i64)
    ensures
        row.day == day ==> rows_of(rows.push(row), day) == rows_of(rows, day).push(
            (row.ts, row.kwh),
        ),
        row.day != day ==> rows_of(rows.push(row), day) == rows_of(rows, day),
        rows_of(Seq::<EnergyRow<F>>::empty(), day).len() == 0,
{
    assert(rows.push(row).drop_last() =~= rows);
}

/// The chart shows the days from its first on, in their order, and no earlier one.
pub proof fn law_the_chart_shows_the_days_from_its_first(days: Seq<i64>, d: i64, chart_from: i64)
    ensures
        charted(Seq::empty(), chart_from).len() == 0,
        d >= chart_from ==> charted(days.push(d), chart_from) == charted(days, chart_from).push(d),
        d < chart_from ==> charted(days.push(d), chart_from) == charted(days, chart_from),
{
    reveal(Seq::filter);
    assert(days.push(d).drop_last() =~= days);
}

/// The first day of a period is no day into it, and each day is one day further than the day before;
/// what is no number stands for the first.
pub proof fn law_a_day_counts_from_the_first(n: nat, text: Seq<char>)
    requires
        1 <= n < i64::MAX,
    ensures
        field(crate::text::dec(n)) == n,
        days_into(crate::text::dec(1)) == 0,
        days_into(crate::text::dec((n + 1) as nat)) == days_into(crate::text::dec(n)) + 1,
        parse_int(text, true) is None ==> field(text) == 1 && days_into(text) == 0,
        days_into(text) >= 0,
{
    crate::text::law_decimal_reads_back(n);
    crate::text::law_decimal_reads_back(1);
    crate::text::law_decimal_reads_back((n + 1) as nat);
}

/// What a day claims is ten minutes for each bucket that was priced, and nothing where none was: never
/// a day of no cost.
pub proof fn law_a_day_claims_only_what_was_priced(priced: u64, r: Option<i64>)
    requires
        priced * 600 <= i64::MAX,
        call_ensures(daily_spend, (priced,), r),
    ensures
        r is None <==> priced == 0,
        r is Some ==> r->0 == priced * 600,
{
}

/// Each figure is that of its own window, and is said only where that window was priced: the day's, the
/// standby's, that of the last 24 hours, and the price of work, which is said by the work's own hours.
pub proof fn law_each_figure_is_of_its_own_window<F: Copy>(
    now: i64,
    today: Bill<F>,
    work: Bill<F>,
    standby: Bill<F>,
    last_24h: Bill<F>,
    per: TokenPrices<F>,
    r: CostStatus<F>,
)
    requires
        call_ensures(compute::<F>, (now, today, work, standby, last_24h, per), r),
    ensures
        today.intervals_priced > 0 ==> r.today_kwh == Some(today.kwh) && r.today_usd == Some(today.usd)
            && r.today_usd_per_million_generated_tokens == per.generated
            && r.today_usd_per_million_prompt_tokens == per.prompt,
        today.intervals_priced == 0 ==> r.today_kwh is None && r.today_usd is None
            && r.today_usd_per_million_generated_tokens is None
            && r.today_usd_per_million_prompt_tokens is None,
        work.intervals_priced > 0 ==> r.today_usd_per_million_real_work_tokens == per.real_work,
        work.intervals_priced == 0 ==> r.today_usd_per_million_real_work_tokens is None,
        standby.intervals_priced > 0 ==> r.today_standby_kwh == Some(standby.kwh)
            && r.today_standby_usd == Some(standby.usd),
        standby.intervals_priced == 0 ==> r.today_standby_kwh is None && r.today_standby_usd is None,
        last_24h.intervals_priced > 0 ==> r.last_24h_kwh == Some(last_24h.kwh) && r.last_24h_usd
            == Some(last_24h.usd),
        last_24h.intervals_priced == 0 ==> r.last_24h_kwh is None && r.last_24h_usd is None,
        r.today_covered_secs is Some <==> today.earliest_ts is Some,
        r.last_24h_covered_secs is Some <==> last_24h.earliest_ts is Some,
        r.today_covered_secs is Some && today.earliest_ts->0 <= now ==> r.today_covered_secs->0 == now
            - today.earliest_ts->0,
        r.last_24h_covered_secs is Some && last_24h.earliest_ts->0 <= now ==> r.last_24h_covered_secs->0
            == now - last_24h.earliest_ts->0,
{
}

} // verus!
