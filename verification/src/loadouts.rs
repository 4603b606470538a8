//! The loadout that is served right now: when it is the same as before, when another, and which
//! scorecards belong to it.

use crate::cycle::due;
use crate::text::{opt_view, same};
use vstd::prelude::*;
use vstd::string::*;

verus! {

/// How often a loadout is saved.
pub const SAVE_EVERY_SECS: i64 = 60;

/// The flat price of electricity, unless a table of rates is configured: then only that counts.
pub fn effective_usd_per_kwh<F: Copy>(flat: Option<F>, rates_configured: bool) -> (r: Option<F>)
    ensures
        r == (if rates_configured {
            None
        } else {
            flat
        }),
{
    if rates_configured {
        None
    } else {
        flat
    }
}

/// What a loadout was read for: the container's name and start, and the model. Without a container
/// the name is empty and the start 0.
pub struct SeenAs {
    pub name: String,
    pub started_at: i64,
    pub model: String,
}

/// What a loadout was read for, as values.
pub open spec fn seen_view(s: SeenAs) -> (Seq<char>, i64, Seq<char>) {
    (s.name@, s.started_at, s.model@)
}

/// The same, where there is one.
pub open spec fn seen_opt(s: Option<SeenAs>) -> Option<(Seq<char>, i64, Seq<char>)> {
    match s {
        Some(s) => Some(seen_view(s)),
        None => None,
    }
}

/// What identifies what is serving, once it is up and answers with a model: the container where one
/// runs and its start is known, else the engine itself.
pub open spec fn seen(
    serve_up: bool,
    model: Option<Seq<char>>,
    no_model: Seq<char>,
    container: Option<(Seq<char>, bool, i64)>,
) -> Option<(Seq<char>, i64, Seq<char>)> {
    match model {
        Some(m) if serve_up && m != no_model => match container {
            Some(c) if c.1 && c.2 > 0 => Some((c.0, c.2, m)),
            _ => Some((Seq::empty(), 0i64, m)),
        },
        _ => None,
    }
}

/// What serves is identified exactly while the engine answers with a model, and by that model; by its
/// container too, exactly where that runs and its start is known.
pub proof fn law_what_serves_is_identified(
    serve_up: bool,
    model: Option<Seq<char>>,
    no_model: Seq<char>,
    container: Option<(Seq<char>, bool, i64)>,
)
    ensures
        ({
            let r = seen(serve_up, model, no_model, container);
            let running = container is Some && (container->0).1 && (container->0).2 > 0;
            &&& r is Some <==> serve_up && model is Some && model->0 != no_model
            &&& r matches Some(s) ==> s.2 == model->0
            &&& r matches Some(s) ==> (if running {
                s.0 == (container->0).0 && s.1 == (container->0).2
            } else {
                s.0.len() == 0 && s.1 == 0
            })
        }),
{
}

/// The engine's container, as far as a loadout reads it.
pub struct ServeContainer {
    pub name: String,
    pub running: bool,
    pub started_at: i64,
}

/// A container as values.
pub open spec fn container_view(c: Option<ServeContainer>) -> Option<(Seq<char>, bool, i64)> {
    match c {
        Some(c) => Some((c.name@, c.running, c.started_at)),
        None => None,
    }
}

/// What identifies what is serving, once it is up and answers with a model: the container where one
/// runs and its start is known, else the engine itself.
pub fn seen_as(
    serve_up: bool,
    model: &Option<String>,
    no_model: &str,
    container: &Option<ServeContainer>,
) -> (r: Option<SeenAs>)
    ensures
        seen_opt(r) == seen(serve_up, opt_view(*model), no_model@, container_view(*container)),
{
    match model {
        Some(m) => {
            if !serve_up || same(m.as_str(), no_model) {
                return None;
            }
            if let Some(c) = container {
                if c.running && c.started_at > 0 {
                    return Some(
                        SeenAs { name: c.name.clone(), started_at: c.started_at, model: m.clone() },
                    );
                }
            }
            Some(SeenAs { name: String::new(), started_at: 0, model: m.clone() })
        },
        None => None,
    }
}

/// The loadout that is served: its id, when it was first seen, and what it was read for.
pub struct Current {
    pub id: String,
    pub first_seen: i64,
    pub seen: SeenAs,
}

/// What is carried from one sample to the next.
pub struct Loadouts {
    pub current: Option<Current>,
    pub saved_at: i64,
    /// the newest sample in which the engine did not answer
    pub last_down_ts: Option<i64>,
}

/// The current loadout as values.
pub open spec fn current_view(c: Option<Current>) -> Option<(Seq<char>, i64, (Seq<char>, i64, Seq<char>))> {
    match c {
        Some(c) => Some((c.id@, c.first_seen, seen_view(c.seen))),
        None => None,
    }
}

/// What a switch to a loadout is.
#[derive(Clone, Copy, PartialEq, Eq, Structural, Debug)]
pub enum Switch {
    /// the same configuration started again: one more run
    Restarted,
    /// one that was served before, and since when it is known
    Back(i64),
    /// one that was never served, and since when it counts as seen
    New(i64),
}

/// How long the start took, from the container's start to this first answer: only where that start
/// is known, and the engine was seen down in between, and not long ago.
pub open spec fn cold_start_secs(last_down: Option<i64>, started_at: i64, now: i64) -> Option<int> {
    match last_down {
        Some(d) if started_at > 0 && d >= started_at && now - d <= 60 => Some(now - started_at),
        _ => None,
    }
}

/// What a switch to the loadout `id` is. `stored` says since when it is known, where it is stored;
/// `samples` how many stored samples of this run there are.
pub open spec fn switch_of(
    current: Option<Current>,
    id: Seq<char>,
    started_at: i64,
    now: i64,
    stored: Option<i64>,
    samples: u64,
) -> Switch {
    if current is Some && (current->0).id@ == id {
        Switch::Restarted
    } else {
        match stored {
            Some(first) => Switch::Back(first),
            None => Switch::New(
                if samples > 0 && started_at > 0 {
                    if started_at <= now {
                        started_at
                    } else {
                        now
                    }
                } else {
                    now
                },
            ),
        }
    }
}

impl Loadouts {
    /// Nothing has been served.
    pub fn new() -> (r: Loadouts)
        ensures
            r.current is None && r.last_down_ts is None,
            r.saved_at == 0,
    {
        Loadouts { current: None, saved_at: 0, last_down_ts: None }
    }

    /// One sample: whether what serves must be identified. It must where it is not what the current
    /// loadout was read for.
    pub fn on_sample(&mut self, ts: i64, serve_up: bool, now_seen: &Option<SeenAs>) -> (r: bool)
        ensures
            r == (match seen_opt(*now_seen) {
                Some(s) => !(old(self).current is Some && seen_view((old(self).current->0).seen) == s),
                None => false,
            }),
            *final(self) == (Loadouts {
                last_down_ts: if serve_up {
                    old(self).last_down_ts
                } else {
                    Some(ts)
                },
                ..*old(self)
            }),
    {
        if !serve_up {
            self.last_down_ts = Some(ts);
        }
        match now_seen {
            None => false,
            Some(s) => match &self.current {
                None => true,
                Some(c) => !(same(c.seen.name.as_str(), s.name.as_str()) && c.seen.started_at
                    == s.started_at && same(c.seen.model.as_str(), s.model.as_str())),
            },
        }
    }

    /// The loadout that serves was identified: what the switch to it is, and how long its start took
    /// where that was watched.
    pub fn switch_to(
        &mut self,
        id: String,
        s: SeenAs,
        now: i64,
        stored: Option<i64>,
        samples: u64,
    ) -> (r: (Switch, Option<i64>))
        requires
            now - s.started_at <= i64::MAX,
            now - s.started_at >= i64::MIN,
        ensures
            r.0 == switch_of(old(self).current, id@, s.started_at, now, stored, samples),
            (match r.1 {
                Some(c) => Some(c as int),
                None => None::<int>,
            }) == cold_start_secs(old(self).last_down_ts, s.started_at, now),
            current_view(final(self).current) == Some(
                (
                    id@,
                    match r.0 {
                        Switch::Restarted => (old(self).current->0).first_seen,
                        Switch::Back(f) => f,
                        Switch::New(f) => f,
                    },
                    seen_view(s),
                ),
            ),
            final(self).last_down_ts == old(self).last_down_ts,
            final(self).saved_at == (if r.0 is Restarted {
                old(self).saved_at
            } else {
                now
            }),
    {
        let started: i64 = s.started_at;
        let cold: Option<i64> = match self.last_down_ts {
            Some(d) => if started > 0 && d >= started && now as i128 - d as i128 <= 60 {
                Some(now - started)
            } else {
                None
            },
            None => None,
        };
        let mut same_as: Option<i64> = None;
        if let Some(c) = &self.current {
            if same(c.id.as_str(), id.as_str()) {
                same_as = Some(c.first_seen);
            }
        }
        if let Some(first_seen) = same_as {
            self.current = Some(Current { id, first_seen, seen: s });
            return (Switch::Restarted, cold);
        }
        let switch = match stored {
            Some(first) => Switch::Back(first),
            None => Switch::New(
                if samples > 0 && started > 0 {
                    if started <= now {
                        started
                    } else {
                        now
                    }
                } else {
                    now
                },
            ),
        };
        let first_seen: i64 = match switch {
            Switch::Back(f) => f,
            Switch::New(f) => f,
            Switch::Restarted => now,
        };
        self.current = Some(Current { id, first_seen, seen: s });
        self.saved_at = now;
        (switch, cold)
    }

    /// Whether the loadout is saved now.
    pub fn saves(&mut self, ts: i64) -> (r: bool)
        ensures
            r == (old(self).current is Some && due(ts, old(self).saved_at, SAVE_EVERY_SECS as int)),
            *final(self) == (Loadouts {
                saved_at: if r {
                    ts
                } else {
                    old(self).saved_at
                },
                ..*old(self)
            }),
    {
        if self.current.is_some() && crate::cycle::is_due(ts, self.saved_at, SAVE_EVERY_SECS) {
            self.saved_at = ts;
            true
        } else {
            false
        }
    }
}

/// What serves is identified once: after a switch the same container, start and model ask for
/// nothing again, and a restart of the same configuration keeps the loadout and since when it is
/// known.
pub proof fn law_switch_settles(
    before: Option<Current>,
    after: Option<Current>,
    id: Seq<char>,
    s: SeenAs,
    now: i64,
    stored: Option<i64>,
    samples: u64,
)
    requires
        current_view(after) == Some(
            (
                id,
                match switch_of(before, id, s.started_at, now, stored, samples) {
                    Switch::Restarted => (before->0).first_seen,
                    Switch::Back(f) => f,
                    Switch::New(f) => f,
                },
                seen_view(s),
            ),
        ),
    ensures
        after is Some,
        seen_view((after->0).seen) == seen_view(s),
        before is Some && (before->0).id@ == id ==> (after->0).first_seen == (before->0).first_seen,
        switch_of(after, id, s.started_at, now, stored, samples) == Switch::Restarted,
{
}

/// A switch is a restart exactly where the loadout is the current one already; else it is one that comes
/// back exactly where it is stored, and then since when it was stored; and else a new one, which counts
/// from its container's start where samples of that run are stored and the clock is past it, and from
/// now where not.
pub proof fn law_a_switch_is_told_by_what_is_known(
    current: Option<Current>,
    id: Seq<char>,
    started_at: i64,
    now: i64,
    stored: Option<i64>,
    samples: u64,
)
    ensures
        ({
            let r = switch_of(current, id, started_at, now, stored, samples);
            let same = current is Some && (current->0).id@ == id;
            &&& r is Restarted <==> same
            &&& r is Back <==> !same && stored is Some
            &&& r matches Switch::Back(t) ==> stored == Some(t)
            &&& r is New <==> !same && stored is None
            &&& r matches Switch::New(t) ==> t == (if samples > 0 && 0 < started_at <= now {
                started_at
            } else {
                now
            })
        }),
{
}

/// A cold start is timed exactly where the container's start is known, and the engine was seen down at
/// or after it and within the last minute; it took from that start to now.
pub proof fn law_a_cold_start_was_watched(last_down: Option<i64>, started_at: i64, now: i64, secs: int)
    ensures
        cold_start_secs(last_down, started_at, now) == Some(secs) <==> started_at > 0 && last_down is Some
            && last_down->0 >= started_at && now <= last_down->0 + 60 && secs == now - started_at,
{
}

/// A loadout that was never stored counts as seen from a real instant: its container's start, where
/// that is known and not ahead of the clock, or now. A start that is not known never counts.
pub proof fn law_first_seen_is_real(
    current: Option<Current>,
    id: Seq<char>,
    started_at: i64,
    now: i64,
    samples: u64,
)
    requires
        !(current is Some && (current->0).id@ == id),
    ensures
        switch_of(current, id, started_at, now, None, samples) matches Switch::New(f) && (f == now || (f
            == started_at && started_at > 0 && f <= now)),
{
}

// ------------------------------------------------------------------- scorecards

/// A stored benchmark run, as far as the scorecards read it.
pub struct BenchRow {
    pub loadout_id: String,
    pub profile: String,
    pub status: String,
    pub complete: bool,
    pub ended_at: i64,
    /// the dataset of its first accuracy result
    pub dataset: Option<String>,
}

/// Whether a run is of this loadout and profile.
pub open spec fn is_run(b: BenchRow, id: Seq<char>, profile: Seq<char>) -> bool {
    b.loadout_id@ == id && b.profile@ == profile
}

/// Whether a run is a complete one of this loadout and profile.
pub open spec fn is_complete_run(b: BenchRow, id: Seq<char>, profile: Seq<char>) -> bool {
    is_run(b, id, profile) && b.complete
}

/// Whether a run of this loadout and profile has ended.
pub open spec fn is_ended_run(b: BenchRow, id: Seq<char>, profile: Seq<char>) -> bool {
    is_run(b, id, profile) && b.status@ != "running"@
}

/// The newest complete run of a loadout and profile: the first in a list that is newest first.
pub fn newest_complete(rows: &Vec<BenchRow>, id: &str, profile: &str) -> (r: Option<usize>)
    ensures
        match r {
            Some(i) => i < rows@.len() && is_complete_run(rows@[i as int], id@, profile@) && forall|
                j: int,
            |
                0 <= j < i ==> !is_complete_run(#[trigger] rows@[j], id@, profile@),
            None => forall|j: int|
                0 <= j < rows@.len() ==> !is_complete_run(#[trigger] rows@[j], id@, profile@),
        },
{
    let mut i: usize = 0;
    while i < rows.len()
        invariant
            i <= rows@.len(),
            forall|j: int| 0 <= j < i ==> !is_complete_run(#[trigger] rows@[j], id@, profile@),
        decreases rows@.len() - i,
    {
        let b = &rows[i];
        if same(b.loadout_id.as_str(), id) && same(b.profile.as_str(), profile) && b.complete {
            return Some(i);
        }
        i += 1;
    }
    None
}

/// When the last run of a loadout and profile ended: that of the first in a list that is newest
/// first.
pub fn last_at(rows: &Vec<BenchRow>, id: &str, profile: &str) -> (r: Option<i64>)
    ensures
        match r {
            Some(t) => exists|i: int|
                0 <= i < rows@.len() && is_ended_run(#[trigger] rows@[i], id@, profile@) && t
                    == rows@[i].ended_at && forall|j: int|
                    0 <= j < i ==> !is_ended_run(#[trigger] rows@[j], id@, profile@),
            None => forall|j: int|
                0 <= j < rows@.len() ==> !is_ended_run(#[trigger] rows@[j], id@, profile@),
        },
{
    let mut i: usize = 0;
    while i < rows.len()
        invariant
            i <= rows@.len(),
            forall|j: int| 0 <= j < i ==> !is_ended_run(#[trigger] rows@[j], id@, profile@),
        decreases rows@.len() - i,
    {
        let b = &rows[i];
        if same(b.loadout_id.as_str(), id) && same(b.profile.as_str(), profile) && !same(
            b.status.as_str(),
            "running",
        ) {
            assert(is_ended_run(rows@[i as int], id@, profile@));
            return Some(b.ended_at);
        }
        i += 1;
    }
    None
}

/// Whether a run is a complete accuracy run of this loadout that has a result.
pub open spec fn is_accuracy_run(b: BenchRow, id: Seq<char>) -> bool {
    is_complete_run(b, id, "accuracy"@) && b.dataset is Some
}

/// Whether one of the runs `picked` is on this dataset.
pub open spec fn has_dataset(rows: Seq<BenchRow>, picked: Seq<int>, dataset: Option<Seq<char>>) -> bool {
    exists|k: int| 0 <= k < picked.len() && opt_view(rows[#[trigger] picked[k]].dataset) == dataset
}

/// The newest complete accuracy run of each dataset, among the first `n` rows.
pub open spec fn accuracy_picks(rows: Seq<BenchRow>, id: Seq<char>, n: nat) -> Seq<int>
    decreases n,
{
    if n == 0 || n > rows.len() {
        Seq::empty()
    } else {
        let before = accuracy_picks(rows, id, (n - 1) as nat);
        let b = rows[n - 1];
        if is_accuracy_run(b, id) && !has_dataset(rows, before, opt_view(b.dataset)) {
            before.push(n - 1)
        } else {
            before
        }
    }
}

/// A run is picked exactly where it is a complete accuracy run of this loadout with a result, and no run
/// before it in the list is one on the same dataset: of each dataset the newest.
pub proof fn law_the_newest_of_each_dataset_is_picked(
    rows: Seq<BenchRow>,
    id: Seq<char>,
    n: nat,
    i: int,
)
    requires
        n <= rows.len(),
    ensures
        accuracy_picks(rows, id, n).contains(i) <==> {
            &&& 0 <= i < n
            &&& is_result_on(rows[i], id, opt_view(rows[i].dataset))
            &&& forall|j: int|
                0 <= j < i ==> !is_result_on(#[trigger] rows[j], id, opt_view(rows[i].dataset))
        },
    decreases n,
{
    let after = accuracy_picks(rows, id, n);
    if n == 0 {
        assert(!after.contains(i));
    } else {
        let m = (n - 1) as nat;
        let before = accuracy_picks(rows, id, m);
        law_the_newest_of_each_dataset_is_picked(rows, id, m, i);
        let b = rows[m as int];
        let known = has_dataset(rows, before, opt_view(b.dataset));
        if is_accuracy_run(b, id) {
            assert(known <==> exists|j: int|
                0 <= j < m && is_result_on(#[trigger] rows[j], id, opt_view(b.dataset))) by {
                if known {
                    let k = choose|k: int|
                        0 <= k < before.len() && opt_view(rows[#[trigger] before[k]].dataset) == opt_view(
                            b.dataset,
                        );
                    assert(before.contains(before[k]));
                    law_the_newest_of_each_dataset_is_picked(rows, id, m, before[k]);
                    assert(is_result_on(rows[before[k]], id, opt_view(b.dataset)));
                }
                if exists|j: int|
                    0 <= j < m && is_result_on(#[trigger] rows[j], id, opt_view(b.dataset)) {
                    let j = choose|j: int|
                        0 <= j < m && is_result_on(#[trigger] rows[j], id, opt_view(b.dataset));
                    let first = lemma_first_result(rows, id, opt_view(b.dataset), j);
                    law_the_newest_of_each_dataset_is_picked(rows, id, m, first);
                    let k = choose|k: int| 0 <= k < before.len() && before[k] == first;
                    assert(opt_view(rows[before[k]].dataset) == opt_view(b.dataset));
                }
            }
        }
        if i == m {
            if before.contains(i) {
                assert(i < m);
            }
            if after.len() > before.len() {
                assert(after.last() == i);
            }
        } else {
            if before.contains(i) {
                let k = choose|k: int| 0 <= k < before.len() && before[k] == i;
                assert(after[k] == i);
            }
            if after.contains(i) {
                let k = choose|k: int| 0 <= k < after.len() && after[k] == i;
                assert(before[k] == i);
            }
        }
    }
}

/// Whether a run is a complete accuracy run of this loadout with a result on this dataset.
pub open spec fn is_result_on(b: BenchRow, id: Seq<char>, dataset: Option<Seq<char>>) -> bool {
    &&& b.loadout_id@ == id
    &&& b.profile@ == "accuracy"@
    &&& b.complete
    &&& b.dataset is Some
    &&& opt_view(b.dataset) == dataset
}

proof fn lemma_first_result(
    rows: Seq<BenchRow>,
    id: Seq<char>,
    dataset: Option<Seq<char>>,
    j: int,
) -> (i: int)
    requires
        0 <= j < rows.len(),
        is_result_on(rows[j], id, dataset),
    ensures
        0 <= i <= j,
        is_result_on(rows[i], id, dataset),
        forall|k: int| 0 <= k < i ==> !is_result_on(#[trigger] rows[k], id, dataset),
    decreases j,
{
    if forall|k: int| 0 <= k < j ==> !is_result_on(#[trigger] rows[k], id, dataset) {
        j
    } else {
        let k = choose|k: int| 0 <= k < j && is_result_on(#[trigger] rows[k], id, dataset);
        lemma_first_result(rows, id, dataset, k)
    }
}

/// The newest complete accuracy run of each dataset, from a list that is newest first.
pub fn accuracy_runs(rows: &Vec<BenchRow>, id: &str) -> (r: Vec<usize>)
    ensures
        crate::collect::ints(r@) == accuracy_picks(rows@, id@, rows@.len()),
{
    let mut out: Vec<usize> = Vec::new();
    let mut i: usize = 0;
    assert(crate::collect::ints(out@) =~= accuracy_picks(rows@, id@, 0));
    while i < rows.len()
        invariant
            i <= rows@.len(),
            crate::collect::ints(out@) == accuracy_picks(rows@, id@, i as nat),
            forall|k: int| 0 <= k < out@.len() ==> (#[trigger] out@[k]) < i,
        decreases rows@.len() - i,
    {
        let b = &rows[i];
        let ghost picked = crate::collect::ints(out@);
        if same(b.loadout_id.as_str(), id) && same(b.profile.as_str(), "accuracy") && b.complete {
            if let Some(d) = &b.dataset {
                let mut known = false;
                let mut k: usize = 0;
                while k < out.len() && !known
                    invariant
                        k <= out@.len(),
                        i < rows@.len(),
                        picked == crate::collect::ints(out@),
                        forall|x: int| 0 <= x < out@.len() ==> (#[trigger] out@[x]) < i,
                        known ==> has_dataset(rows@, picked, Some(d@)),
                        !known ==> forall|x: int|
                            0 <= x < k ==> opt_view(rows@[#[trigger] picked[x]].dataset) != Some(d@),
                    decreases out@.len() - k + (if known { 0int } else { 1 }),
                {
                    let o: usize = out[k];
                    assert(picked[k as int] == o as int);
                    if let Some(e) = &rows[o].dataset {
                        if same(e.as_str(), d.as_str()) {
                            known = true;
                            assert(opt_view(rows@[picked[k as int]].dataset) == Some(d@));
                        }
                    }
                    if !known {
                        k += 1;
                    }
                }
                if !known {
                    out.push(i);
                    assert(crate::collect::ints(out@) =~= picked.push(i as int));
                }
            }
        }
        i += 1;
    }
    out
}

/// Which of the past loadouts are shown behind the current one: all but itself, in their order.
pub fn past_shown(past: &Vec<String>, current: &Option<String>) -> (r: Vec<usize>)
    ensures
        forall|k: int| 0 <= k < r@.len() ==> (#[trigger] r@[k]) < past@.len(),
        forall|j: int, k: int| 0 <= j < k < r@.len() ==> r@[j] < r@[k],
        forall|i: int|
            0 <= i < past@.len() ==> r@.contains(i as usize) == (Some((#[trigger] past@[i])@)
                != opt_view(*current)),
{
    let mut out: Vec<usize> = Vec::new();
    let mut i: usize = 0;
    while i < past.len()
        invariant
            i <= past@.len(),
            forall|k: int| 0 <= k < out@.len() ==> (#[trigger] out@[k]) < i,
            forall|j: int, k: int| 0 <= j < k < out@.len() ==> out@[j] < out@[k],
            forall|x: int|
                0 <= x < i ==> out@.contains(x as usize) == (Some((#[trigger] past@[x])@) != opt_view(
                    *current,
                )),
        decreases past@.len() - i,
    {
        let ghost before = out@;
        let is_current = match current {
            Some(c) => same(c.as_str(), past[i].as_str()),
            None => false,
        };
        if !is_current {
            out.push(i);
        }
        proof {
            assert forall|x: int| 0 <= x < i + 1 implies out@.contains(x as usize) == (Some(
                (#[trigger] past@[x])@,
            ) != opt_view(*current)) by {
                if x < i {
                    if before.contains(x as usize) {
                        let k = choose|k: int| 0 <= k < before.len() && before[k] == x as usize;
                        assert(out@[k] == x as usize);
                    }
                    if out@.contains(x as usize) {
                        let k = choose|k: int| 0 <= k < out@.len() && out@[k] == x as usize;
                        assert(before[k] == x as usize);
                    }
                } else if !is_current {
                    assert(out@.last() == i);
                } else if out@.contains(x as usize) {
                    let k = choose|k: int| 0 <= k < out@.len() && out@[k] == x as usize;
                    assert(before[k] == x as usize);
                }
            }
        }
        i += 1;
    }
    out
}

/// A run belongs to a loadout and a profile by both names; it is complete or over by what it says of
/// itself, and an accuracy run counts only once it is complete and has its dataset.
pub proof fn law_a_run_is_told_by_its_own_row(b: BenchRow, id: Seq<char>, profile: Seq<char>)
    ensures
        is_complete_run(b, id, profile) <==> b.loadout_id@ == id && b.profile@ == profile && b.complete,
        is_ended_run(b, id, profile) <==> b.loadout_id@ == id && b.profile@ == profile && b.status@
            != "running"@,
        is_accuracy_run(b, id) <==> b.loadout_id@ == id && b.profile@ == "accuracy"@ && b.complete
            && b.dataset is Some,
{
}

/// A flat rate counts only where no rate table is configured.
pub proof fn law_a_rate_table_goes_before_a_flat_rate<F: Copy>(
    flat: Option<F>,
    configured: bool,
    rate: Option<F>,
)
    requires
        call_ensures(effective_usd_per_kwh::<F>, (flat, configured), rate),
    ensures
        configured ==> rate is None,
        !configured ==> rate == flat,
{
}

} // verus!
