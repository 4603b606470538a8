//! The gateway log's ten-minute buckets, and the one-off build of the tiers from stored samples.

use crate::cycle::{bucket_start, floor_to};
use vstd::prelude::*;

verus! {

/// Seconds of a bucket of the gateway's log.
pub const RES_10M: i64 = 600;

/// The bucket of the gateway's log in progress: its start, and what the samples of it have brought, in
/// their order.
pub struct Pipeline<L> {
    pub gate: Option<(i64, Vec<L>)>,
}

/// A bucket as a value.
pub open spec fn bucket_view<L>(b: Option<(i64, Vec<L>)>) -> Option<(int, Seq<L>)> {
    match b {
        Some(b) => Some((b.0 as int, b.1@)),
        None => None,
    }
}

/// The bucket that is closed by a sample at `ts`: one in progress that `ts` does not fall into.
pub open spec fn closes<L>(gate: Option<(int, Seq<L>)>, ts: int) -> Option<(int, Seq<L>)> {
    match gate {
        Some(g) if g.0 != bucket_start(ts, RES_10M as int) => Some(g),
        _ => None,
    }
}

/// The bucket in progress after a sample at `ts` that brought `log`.
pub open spec fn opened<L>(gate: Option<(int, Seq<L>)>, ts: int, log: L) -> (int, Seq<L>) {
    match gate {
        Some(g) if g.0 == bucket_start(ts, RES_10M as int) => (g.0, g.1.push(log)),
        _ => (bucket_start(ts, RES_10M as int), seq![log]),
    }
}

impl<L> Pipeline<L> {
    /// No bucket is in progress.
    pub fn new() -> (r: Pipeline<L>)
        ensures
            r.gate is None,
    {
        Pipeline { gate: None }
    }

    /// A sample at `ts` has brought `log`: the bucket that it closes, to be written, where it closes
    /// one. Its own bucket goes on, or begins.
    pub fn push(&mut self, ts: i64, log: L) -> (r: Option<(i64, Vec<L>)>)
        requires
            bucket_start(ts as int, RES_10M as int) >= i64::MIN,
        ensures
            bucket_view(r) == closes(bucket_view(old(self).gate), ts as int),
            bucket_view(final(self).gate) == Some(
                opened(bucket_view(old(self).gate), ts as int, log),
            ),
    {
        let bucket: i64 = floor_to(ts, RES_10M);
        let held = self.gate.take();
        match held {
            None => {
                let mut v: Vec<L> = Vec::new();
                v.push(log);
                assert(v@ =~= seq![log]);
                self.gate = Some((bucket, v));
                None
            },
            Some((t, logs)) => if t == bucket {
                let mut logs = logs;
                logs.push(log);
                self.gate = Some((t, logs));
                None
            } else {
                let mut v: Vec<L> = Vec::new();
                v.push(log);
                assert(v@ =~= seq![log]);
                self.gate = Some((bucket, v));
                Some((t, logs))
            },
        }
    }

    /// The bucket still in progress, which the gateway's tables add to what is stored.
    pub fn gate_open_bucket(&self) -> (r: Option<(i64, &Vec<L>)>)
        ensures
            match r {
                Some(b) => bucket_view(self.gate) == Some((b.0 as int, b.1@)),
                None => self.gate is None,
            },
    {
        match &self.gate {
            Some(b) => Some((b.0, &b.1)),
            None => None,
        }
    }
}

/// What samples have brought: the buckets that were closed, and the one in progress.
pub open spec fn folded<L>(samples: Seq<(int, L)>) -> (Seq<(int, Seq<L>)>, Option<(int, Seq<L>)>)
    decreases samples.len(),
{
    if samples.len() == 0 {
        (Seq::empty(), None)
    } else {
        let before = folded(samples.drop_last());
        let (ts, log) = samples.last();
        let closed = match closes(before.1, ts) {
            Some(b) => before.0.push(b),
            None => before.0,
        };
        (closed, Some(opened(before.1, ts, log)))
    }
}

/// Everything in some buckets, one after the other.
pub open spec fn contents<L>(buckets: Seq<(int, Seq<L>)>) -> Seq<L>
    decreases buckets.len(),
{
    if buckets.len() == 0 {
        Seq::empty()
    } else {
        contents(buckets.drop_last()) + buckets.last().1
    }
}

/// What the samples have brought, one after the other.
pub open spec fn logs_of<L>(samples: Seq<(int, L)>) -> Seq<L> {
    Seq::new(samples.len(), |i: int| samples[i].1)
}

/// Nothing is lost and nothing counted twice: the closed buckets and the one in progress together
/// hold what every sample brought, once, in the samples' order.
pub proof fn law_nothing_is_lost<L>(samples: Seq<(int, L)>)
    ensures
        ({
            let (closed, open) = folded(samples);
            contents(closed) + (match open {
                Some(b) => b.1,
                None => Seq::empty(),
            }) == logs_of(samples)
        }),
    decreases samples.len(),
{
    if samples.len() == 0 {
        assert(logs_of(samples) =~= Seq::<L>::empty());
        assert(contents(Seq::<(int, Seq<L>)>::empty()) + Seq::<L>::empty() =~= Seq::<L>::empty());
    } else {
        law_nothing_is_lost(samples.drop_last());
        let before = folded(samples.drop_last());
        let (ts, log) = samples.last();
        assert(logs_of(samples) =~= logs_of(samples.drop_last()).push(log));
        match closes(before.1, ts) {
            Some(b) => {
                assert(before.0.push(b).drop_last() =~= before.0);
                assert(contents(before.0.push(b)) == contents(before.0) + b.1);
                assert(folded(samples).0 == before.0.push(b));
                assert(contents(folded(samples).0) + seq![log] =~= logs_of(samples));
            },
            None => {
                assert(folded(samples).0 == before.0);
                match before.1 {
                    Some(g) => {
                        assert(contents(before.0) + g.1.push(log) =~= (contents(before.0)
                            + g.1).push(log));
                    },
                    None => {
                        assert(contents(before.0) + seq![log] =~= (contents(before.0) + Seq::<
                            L,
                        >::empty()).push(log));
                    },
                }
            },
        }
    }
}

/// Where the samples come in order of time, no bucket is closed twice: each closed one starts before
/// the next, and before the one in progress.
pub proof fn law_buckets_close_once<L>(samples: Seq<(int, L)>)
    requires
        forall|i: int, j: int|
            0 <= i < j < samples.len() ==> #[trigger] samples[i].0 <= #[trigger] samples[j].0,
    ensures
        ({
            let (closed, open) = folded(samples);
            &&& forall|i: int, j: int|
                0 <= i < j < closed.len() ==> #[trigger] closed[i].0 < #[trigger] closed[j].0
            &&& open is Some ==> forall|i: int|
                0 <= i < closed.len() ==> #[trigger] closed[i].0 < (open->0).0
        }),
{
    lemma_buckets_rise(samples);
}

proof fn lemma_buckets_rise<L>(samples: Seq<(int, L)>)
    requires
        forall|i: int, j: int|
            0 <= i < j < samples.len() ==> #[trigger] samples[i].0 <= #[trigger] samples[j].0,
    ensures
        ({
            let (closed, open) = folded(samples);
            &&& forall|i: int, j: int|
                0 <= i < j < closed.len() ==> #[trigger] closed[i].0 < #[trigger] closed[j].0
            &&& open is Some ==> forall|i: int|
                0 <= i < closed.len() ==> #[trigger] closed[i].0 < (open->0).0
            &&& samples.len() > 0 ==> open is Some && (open->0).0 == bucket_start(
                samples.last().0,
                RES_10M as int,
            )
            &&& samples.len() == 0 ==> closed.len() == 0 && open is None
        }),
    decreases samples.len(),
{
    if samples.len() > 0 {
        let shorter = samples.drop_last();
        assert forall|i: int, j: int| 0 <= i < j < shorter.len() implies #[trigger] shorter[i].0
            <= #[trigger] shorter[j].0 by {
            assert(samples[i].0 <= samples[j].0);
        }
        lemma_buckets_rise(shorter);
        if shorter.len() > 0 {
            let a = shorter.last().0;
            let b = samples.last().0;
            assert(samples[samples.len() - 2].0 <= samples[samples.len() - 1].0);
            assert(a <= b);
            assert(bucket_start(a, RES_10M as int) <= bucket_start(b, RES_10M as int));
        }
    }
}

// ---------------------------------------------------------------- the one-off build

/// The samples that one transaction of the build takes, where `first` is the time of the first sample
/// that is left: from it to the end of its hour, but not to `until` or beyond. Nothing where none is
/// left before `until`.
pub open spec fn chunk(first: Option<i64>, until: i64) -> Option<(int, int)> {
    match first {
        Some(f) if f < until => {
            let hour = bucket_start(f as int, 3600) + 3600;
            Some((f as int, if hour < until { hour } else { until as int }))
        },
        _ => None,
    }
}

/// The samples that one transaction of the build takes, where `first` is the time of the first sample
/// that is left: from it to the end of its hour, but not to `until` or beyond. Nothing where none is
/// left before `until`.
pub fn backfill(first: Option<i64>, until: i64) -> (r: Option<(i64, i64)>)
    ensures
        match r {
            Some(c) => chunk(first, until) == Some((c.0 as int, c.1 as int)),
            None => chunk(first, until) is None,
        },
        r is Some ==> (r->0).0 < (r->0).1 <= until,
{
    match first {
        None => None,
        Some(f) => {
            if f >= until {
                return None;
            }
            let wide: i128 = f as i128;
            // the seconds since the hour began, for times before the epoch too
            let into: i128 = (wide + 3600 * 2_562_047_788_015_216) % 3600;
            assert(into == f as int % 3600);
            let hour: i128 = wide - into + 3600;
            if hour < until as i128 {
                Some((f, hour as i64))
            } else {
                Some((f, until))
            }
        },
    }
}

/// The first of some times that is not before `from`.
pub open spec fn first_from(times: Seq<i64>, from: int) -> Option<i64>
    decreases times.len(),
{
    if times.len() == 0 {
        None
    } else if times[0] >= from {
        Some(times[0])
    } else {
        first_from(times.drop_first(), from)
    }
}

proof fn lemma_first_from(times: Seq<i64>, from: int)
    requires
        forall|i: int, j: int| 0 <= i < j < times.len() ==> times[i] < times[j],
    ensures
        match first_from(times, from) {
            Some(f) => f >= from && times.contains(f) && forall|i: int|
                0 <= i < times.len() && times[i] >= from ==> times[i] >= f,
            None => forall|i: int| 0 <= i < times.len() ==> times[i] < from,
        },
    decreases times.len(),
{
    if times.len() > 0 && times[0] < from {
        let rest = times.drop_first();
        assert forall|i: int, j: int| 0 <= i < j < rest.len() implies rest[i] < rest[j] by {
            assert(times[i + 1] < times[j + 1]);
        }
        lemma_first_from(rest, from);
        match first_from(times, from) {
            Some(f) => {
                let k = rest.index_of(f);
                assert(times[k + 1] == f);
                assert forall|i: int| 0 <= i < times.len() && times[i] >= from implies times[i]
                    >= f by {
                    if i > 0 {
                        assert(rest[i - 1] == times[i]);
                    }
                }
            },
            None => {
                assert forall|i: int| 0 <= i < times.len() implies times[i] < from by {
                    if i > 0 {
                        assert(rest[i - 1] == times[i]);
                    }
                }
            },
        }
    } else if times.len() > 0 {
        assert(times.contains(times[0]));
    }
}

/// The transactions of a build of the samples at `times` that are left from `from` on.
pub open spec fn chunks(times: Seq<i64>, from: int, until: i64) -> Seq<(int, int)>
    decreases until - from,
    via chunks_progress
{
    match chunk(first_from(times, from), until) {
        None => Seq::empty(),
        Some(c) => if c.1 <= from {
            Seq::empty()
        } else {
            seq![c] + chunks(times, c.1, until)
        },
    }
}

#[via_fn]
proof fn chunks_progress(times: Seq<i64>, from: int, until: i64) {
    lemma_chunk_bounds(first_from(times, from), until);
}

proof fn lemma_chunk_bounds(first: Option<i64>, until: i64)
    ensures
        match chunk(first, until) {
            Some(c) => first is Some && c.0 == first->0 && c.0 < c.1 <= until,
            None => first is None || first->0 >= until,
        },
{
}

/// The build takes every sample before `until`, each in exactly one transaction.
pub proof fn law_build_takes_each_sample_once(times: Seq<i64>, from: int, until: i64, i: int)
    requires
        forall|a: int, b: int| 0 <= a < b < times.len() ==> times[a] < times[b],
        0 <= i < times.len(),
        from <= times[i] < until,
    ensures
        exists|c: int| #[trigger]
            takes(chunks(times, from, until), c, times[i] as int) && forall|d: int| #[trigger]
                takes(chunks(times, from, until), d, times[i] as int) ==> d == c,
{
    let c = lemma_chunks_take(times, from, until, i);
    assert(takes(chunks(times, from, until), c, times[i] as int));
}

/// Whether transaction number `c` takes the sample at `t`.
pub open spec fn takes(cs: Seq<(int, int)>, c: int, t: int) -> bool {
    0 <= c < cs.len() && cs[c].0 <= t < cs[c].1
}

proof fn lemma_chunks_start(times: Seq<i64>, from: int, until: i64)
    requires
        forall|a: int, b: int| 0 <= a < b < times.len() ==> times[a] < times[b],
    ensures
        forall|c: int|
            0 <= c < chunks(times, from, until).len() ==> #[trigger] chunks(
                times,
                from,
                until,
            )[c].0 >= from,
    decreases until - from,
{
    let cs = chunks(times, from, until);
    lemma_first_from(times, from);
    lemma_chunk_bounds(first_from(times, from), until);
    if let Some(k) = chunk(first_from(times, from), until) {
        lemma_chunks_start(times, k.1, until);
        let rest = chunks(times, k.1, until);
        assert(cs =~= seq![k] + rest);
        assert forall|c: int| 0 <= c < cs.len() implies #[trigger] cs[c].0 >= from by {
            if c > 0 {
                assert(cs[c] == rest[c - 1]);
            }
        }
    }
}

proof fn lemma_chunks_take(times: Seq<i64>, from: int, until: i64, i: int) -> (c: int)
    requires
        forall|a: int, b: int| 0 <= a < b < times.len() ==> times[a] < times[b],
        0 <= i < times.len(),
        from <= times[i] < until,
    ensures
        takes(chunks(times, from, until), c, times[i] as int),
        forall|d: int| #[trigger]
            takes(chunks(times, from, until), d, times[i] as int) ==> d == c,
    decreases until - from,
{
    let t = times[i] as int;
    let cs = chunks(times, from, until);
    lemma_first_from(times, from);
    let first = first_from(times, from);
    lemma_chunk_bounds(first, until);
    let k = chunk(first, until)->0;
    let rest = chunks(times, k.1, until);
    assert(cs =~= seq![k] + rest);
    lemma_chunks_start(times, k.1, until);
    if t < k.1 {
        assert forall|d: int| #[trigger] takes(cs, d, t) implies d == 0 by {
            if d > 0 {
                assert(cs[d] == rest[d - 1]);
            }
        }
        0
    } else {
        let c = lemma_chunks_take(times, k.1, until, i);
        assert(cs[c + 1] == rest[c]);
        assert forall|d: int| #[trigger] takes(cs, d, t) implies d == c + 1 by {
            if d > 0 {
                assert(cs[d] == rest[d - 1]);
                assert(takes(rest, d - 1, t));
            }
        }
        c + 1
    }
}

/// A sample goes into the ten minutes it falls in: it is the last of the bucket in progress, which
/// begins on a full ten minutes. Where the bucket was in progress already it only grows; where another
/// was, that one is closed with what it had, and nothing else is.
pub proof fn law_a_sample_goes_into_its_ten_minutes<L>(samples: Seq<(int, L)>, ts: int, log: L)
    ensures
        ({
            let (closed, open) = folded(samples);
            let (after, now_open) = folded(samples.push((ts, log)));
            &&& now_open is Some
            &&& (now_open->0).0 <= ts < (now_open->0).0 + 600
            &&& (now_open->0).0 % 600 == 0
            &&& open is None ==> after == closed && (now_open->0).1 == seq![log]
            &&& open is Some && (open->0).0 <= ts < (open->0).0 + 600 ==> after == closed && now_open
                == Some(((open->0).0, (open->0).1.push(log)))
            &&& open is Some && !((open->0).0 <= ts < (open->0).0 + 600) ==> after == closed.push(
                open->0,
            ) && (now_open->0).1 == seq![log]
        }),
{
    assert(samples.push((ts, log)).drop_last() =~= samples);
    lemma_open_on_ten_minutes(samples);
    vstd::arithmetic::div_mod::lemma_fundamental_div_mod(ts, 600);
    assert(bucket_start(ts, 600) == 600 * (ts / 600));
    let open = folded(samples).1;
    if open is Some {
        let t = (open->0).0;
        vstd::arithmetic::div_mod::lemma_fundamental_div_mod(t, 600);
        assert(t == 600 * (t / 600));
    }
}

proof fn lemma_open_on_ten_minutes<L>(samples: Seq<(int, L)>)
    ensures
        folded(samples).1 is Some ==> (folded(samples).1->0).0 % 600 == 0,
    decreases samples.len(),
{
    if samples.len() > 0 {
        let t = samples.last().0;
        lemma_open_on_ten_minutes(samples.drop_last());
        vstd::arithmetic::div_mod::lemma_fundamental_div_mod(t, 600);
        assert(bucket_start(t, 600) == 600 * (t / 600));
    }
}

/// A transaction of the build begins with the first sample that is left and stays inside that sample's
/// hour and before the end of the build; it takes all of both that it can. There is one wherever a
/// sample is left before the end.
pub proof fn law_a_transaction_is_the_rest_of_an_hour(first: i64, until: i64)
    ensures
        chunk(None, until) is None,
        chunk(Some(first), until) is Some <==> first < until,
        chunk(Some(first), until) matches Some(c) ==> {
            &&& c.0 == first
            &&& c.0 < c.1 <= until
            &&& c.0 / 3600 == (c.1 - 1) / 3600
            &&& c.1 == until || c.1 % 3600 == 0
        },
{
    let f = first as int;
    vstd::arithmetic::div_mod::lemma_fundamental_div_mod(f, 3600);
    assert(bucket_start(f, 3600) == 3600 * (f / 3600));
}

} // verus!
