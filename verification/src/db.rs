//! What the stored rows mean: which are kept, which are one event, and which were read wrong.

use crate::text::{dec, dec_i64, dec_int, dec_u64, opt_view, same, views};
use vstd::prelude::*;
use vstd::string::*;

verus! {

/// How long each tier of rows is kept, in seconds.
#[derive(Clone, Copy, PartialEq, Eq, Structural, Debug)]
pub struct Retention {
    pub raw: i64,
    pub m1: i64,
    pub m10: i64,
}

// -------------------------------------------------------------------- incidents

/// A stored incident. One that has no end is open.
pub struct Incident {
    pub id: i64,
    pub start: i64,
    pub end: Option<i64>,
    pub kind: String,
    pub detail: String,
    /// what makes two wordings one event
    pub key: Option<String>,
}

/// An incident as values.
pub struct IncidentView {
    pub id: int,
    pub start: i64,
    pub end: Option<i64>,
    pub kind: Seq<char>,
    pub detail: Seq<char>,
    pub key: Option<Seq<char>>,
}

impl View for Incident {
    type V = IncidentView;

    open spec fn view(&self) -> IncidentView {
        IncidentView {
            id: self.id as int,
            start: self.start,
            end: self.end,
            kind: self.kind@,
            detail: self.detail@,
            key: opt_view(self.key),
        }
    }
}

/// Incidents as values.
pub open spec fn incident_views(v: Seq<Incident>) -> Seq<IncidentView> {
    v.map_values(|i: Incident| i@)
}

/// Whether an incident reaches into the time from `ts` on: it began there, it is still open, or it
/// ended there.
pub open spec fn reaches(start: i64, end: Option<i64>, ts: int) -> bool {
    start >= ts || end is None || end->0 >= ts
}

/// How many incidents are shown at most.
pub const MAX_INCIDENTS: usize = 500;

/// Whether one incident comes before another in a list that is newest first: it began later, or at
/// the same time and was stored later.
pub open spec fn is_newer(a: Incident, b: Incident) -> bool {
    a.start > b.start || (a.start == b.start && a.id > b.id)
}

/// Whether an incident reaches into the time from `ts` on.
pub open spec fn is_shown(i: Incident, ts: int) -> bool {
    reaches(i.start, i.end, ts)
}

/// Whether `r` lists those of the first `n` incidents that reach into the time from `ts` on, newest
/// first.
pub open spec fn is_listing(rows: Seq<Incident>, n: int, ts: int, r: Seq<usize>) -> bool {
    &&& forall|k: int|
        0 <= k < r.len() ==> (#[trigger] r[k]) < n && is_shown(rows[r[k] as int], ts)
    &&& forall|j: int, k: int|
        0 <= j < k < r.len() ==> #[trigger] r[j] != #[trigger] r[k] && !is_newer(
            rows[r[k] as int],
            rows[r[j] as int],
        )
    &&& forall|x: int| 0 <= x < n && #[trigger] is_shown(rows[x], ts) ==> r.contains(x as usize)
}

proof fn lemma_listed(rows: Seq<Incident>, n: int, ts: int, r: Seq<usize>, p: int)
    requires
        0 <= n < rows.len() <= usize::MAX,
        is_listing(rows, n, ts, r),
        is_shown(rows[n], ts),
        0 <= p <= r.len(),
        forall|k: int| 0 <= k < p ==> !is_newer(rows[n], rows[#[trigger] r[k] as int]),
        p < r.len() ==> is_newer(rows[n], rows[r[p] as int]),
    ensures
        is_listing(rows, n + 1, ts, r.insert(p, n as usize)),
{
    let q = r.insert(p, n as usize);
    assert forall|k: int| 0 <= k < q.len() implies (#[trigger] q[k]) < n + 1 && is_shown(
        rows[q[k] as int],
        ts,
    ) by {
        if k < p {
            assert(q[k] == r[k]);
        } else if k > p {
            assert(q[k] == r[k - 1]);
        }
    }
    assert forall|j: int, k: int| 0 <= j < k < q.len() implies #[trigger] q[j] != #[trigger] q[k]
        && !is_newer(rows[q[k] as int], rows[q[j] as int]) by {
        let a = if j < p { j } else { j - 1 };
        let b = if k < p { k } else { k - 1 };
        if j != p && k != p {
            assert(q[j] == r[a] && q[k] == r[b]);
        } else if k == p {
            assert(q[j] == r[j]);
        } else {
            assert(q[k] == r[b]);
            if b > p {
                assert(!is_newer(rows[r[b] as int], rows[r[p] as int]));
            }
        }
    }
    assert forall|x: int| 0 <= x < n + 1 && #[trigger] is_shown(rows[x], ts) implies q.contains(
        x as usize,
    ) by {
        if x == n {
            assert(q[p] == n as usize);
        } else {
            let k = choose|k: int| 0 <= k < r.len() && r[k] == x as usize;
            if k < p {
                assert(q[k] == r[k]);
            } else {
                assert(q[k + 1] == r[k]);
            }
        }
    }
}

/// The incidents that reach into the time from `ts` on, newest first, as many as are shown. Where
/// there are more, the oldest are left out.
pub fn incidents_since(rows: &Vec<Incident>, ts: i64) -> (r: Vec<usize>)
    ensures
        r@.len() <= MAX_INCIDENTS,
        exists|all: Seq<usize>| #[trigger]
            is_listing(rows@, rows@.len() as int, ts as int, all) && r@ == (if all.len()
                <= MAX_INCIDENTS {
                all
            } else {
                all.take(MAX_INCIDENTS as int)
            }),
{
    let mut out: Vec<usize> = Vec::new();
    let mut i: usize = 0;
    while i < rows.len()
        invariant
            i <= rows@.len(),
            is_listing(rows@, i as int, ts as int, out@),
        decreases rows@.len() - i,
    {
        let keep = rows[i].start >= ts || match rows[i].end {
            Some(e) => e >= ts,
            None => true,
        };
        if keep {
            let mut p: usize = 0;
            while p < out.len() && !(rows[i].start > rows[out[p]].start || (rows[i].start
                == rows[out[p]].start && rows[i].id > rows[out[p]].id))
                invariant
                    i < rows@.len(),
                    p <= out@.len(),
                    forall|k: int| 0 <= k < out@.len() ==> (#[trigger] out@[k]) < i,
                    forall|k: int|
                        0 <= k < p ==> !is_newer(rows@[i as int], rows@[#[trigger] out@[k] as int]),
                decreases out@.len() - p,
            {
                p += 1;
            }
            proof {
                lemma_listed(rows@, i as int, ts as int, out@, p as int);
            }
            out.insert(p, i);
        }
        i += 1;
    }
    let ghost all = out@;
    if out.len() > MAX_INCIDENTS {
        out.truncate(MAX_INCIDENTS);
    }
    assert(is_listing(rows@, rows@.len() as int, ts as int, all));
    out
}

/// Whether a stored incident is this event: by the key where there is one, else by kind, time and
/// wording.
pub open spec fn is_event(
    i: IncidentView,
    kind: Seq<char>,
    ts: i64,
    detail: Seq<char>,
    key: Option<Seq<char>>,
) -> bool {
    match key {
        Some(k) => i.key == Some(k),
        None => i.kind == kind && i.start == ts && i.detail == detail,
    }
}

/// Whether an event is stored.
pub open spec fn is_stored(
    rows: Seq<IncidentView>,
    kind: Seq<char>,
    ts: i64,
    detail: Seq<char>,
    key: Option<Seq<char>>,
) -> bool {
    exists|i: int| 0 <= i < rows.len() && is_event(#[trigger] rows[i], kind, ts, detail, key)
}

/// Whether an event is to be stored: it is, unless it is stored already.
pub fn event_incident(
    rows: &Vec<Incident>,
    kind: &str,
    ts: i64,
    detail: &str,
    key: &Option<String>,
) -> (r: bool)
    ensures
        r == !is_stored(incident_views(rows@), kind@, ts, detail@, opt_view(*key)),
{
    let mut i: usize = 0;
    let ghost all = incident_views(rows@);
    while i < rows.len()
        invariant
            i <= rows@.len(),
            all == incident_views(rows@),
            forall|j: int|
                0 <= j < i ==> !is_event(#[trigger] all[j], kind@, ts, detail@, opt_view(*key)),
        decreases rows@.len() - i,
    {
        let hit = match key {
            Some(k) => match &rows[i].key {
                Some(have) => same(have.as_str(), k.as_str()),
                None => false,
            },
            None => same(rows[i].kind.as_str(), kind) && rows[i].start == ts && same(
                rows[i].detail.as_str(),
                detail,
            ),
        };
        assert(all[i as int] == rows@[i as int]@);
        if hit {
            return false;
        }
        i += 1;
    }
    true
}

/// The row of an event: it begins and ends at its time.
pub open spec fn event_row(
    id: int,
    kind: Seq<char>,
    ts: i64,
    detail: Seq<char>,
    key: Option<Seq<char>>,
) -> IncidentView {
    IncidentView { id, start: ts, end: Some(ts), kind, detail, key }
}

/// An event is stored once: whatever is stored besides, once its row is there it is not stored
/// again, and with a key not in another wording either.
pub proof fn law_event_is_stored_once(
    rows: Seq<IncidentView>,
    more: Seq<IncidentView>,
    id: int,
    kind: Seq<char>,
    ts: i64,
    detail: Seq<char>,
    key: Option<Seq<char>>,
    reworded: Seq<char>,
)
    ensures
        ({
            let after = rows.push(event_row(id, kind, ts, detail, key)) + more;
            &&& is_stored(after, kind, ts, detail, key)
            &&& key is Some ==> is_stored(after, kind, ts, reworded, key)
        }),
{
    let after = rows.push(event_row(id, kind, ts, detail, key)) + more;
    assert(after[rows.len() as int] == event_row(id, kind, ts, detail, key));
    assert(is_event(after[rows.len() as int], kind, ts, detail, key));
    if key is Some {
        assert(is_event(after[rows.len() as int], kind, ts, reworded, key));
    }
}

/// What is done to a stored Xid that has no key yet.
pub enum XidMerge {
    /// nothing can be read from its wording
    Leave,
    /// it is the only one of its event so far: it gets the key
    Key(String),
    /// the row of this id is the same event and older: that row stays, and this one goes. The second
    /// part says whether that row takes this one's wording, which it does where its own is older
    MergeInto(i64, bool),
    /// the row of this id is the same event and younger: this row takes its key and its wording, and
    /// that row goes
    Replace(i64, String),
}

/// What is done to a stored Xid, as values.
pub enum MergeView {
    Leave,
    Key(Seq<char>),
    MergeInto(int, bool),
    Replace(int, Seq<char>),
}

/// What is done to a stored Xid, as values.
pub open spec fn merge_view(m: XidMerge) -> MergeView {
    match m {
        XidMerge::Leave => MergeView::Leave,
        XidMerge::Key(k) => MergeView::Key(k@),
        XidMerge::MergeInto(i, reword) => MergeView::MergeInto(i as int, reword),
        XidMerge::Replace(i, k) => MergeView::Replace(i as int, k@),
    }
}

/// What is done to several, as values.
pub open spec fn merge_views(v: Seq<XidMerge>) -> Seq<MergeView> {
    v.map_values(|m: XidMerge| merge_view(m))
}

/// A stored Xid with a key: its row, and the row that its wording comes from.
pub struct Keyed {
    pub id: i64,
    pub key: String,
    pub said: i64,
}

/// A stored Xid with a key, as values.
pub struct KeyedView {
    pub id: int,
    pub key: Seq<char>,
    pub said: int,
}

impl View for Keyed {
    type V = KeyedView;

    open spec fn view(&self) -> KeyedView {
        KeyedView { id: self.id as int, key: self.key@, said: self.said as int }
    }
}

/// Xids with keys as values.
pub open spec fn keyed_view(v: Seq<Keyed>) -> Seq<KeyedView> {
    v.map_values(|e: Keyed| e@)
}

/// Rows that have their own wording, as values.
pub open spec fn stored_view(v: Seq<(i64, String)>) -> Seq<KeyedView> {
    v.map_values(|e: (i64, String)| KeyedView { id: e.0 as int, key: e.1@, said: e.0 as int })
}

/// Ids and possible keys as values.
pub open spec fn unkeyed_view(v: Seq<(i64, Option<String>)>) -> Seq<(int, Option<Seq<char>>)> {
    v.map_values(|e: (i64, Option<String>)| (e.0 as int, opt_view(e.1)))
}

/// Where the row with a key stands, where there is one.
pub open spec fn place(known: Seq<KeyedView>, key: Seq<char>) -> Option<int>
    decreases known.len(),
{
    if known.len() == 0 {
        None
    } else if known.last().key == key {
        Some(known.len() - 1)
    } else {
        place(known.drop_last(), key)
    }
}

/// The keyed rows once `rows` have been gone through: of each event the oldest row is left, with the
/// newest wording.
pub open spec fn keyed_after(known: Seq<KeyedView>, rows: Seq<(int, Option<Seq<char>>)>) -> Seq<
    KeyedView,
>
    decreases rows.len(),
{
    if rows.len() == 0 {
        known
    } else {
        let before = keyed_after(known, rows.drop_last());
        let id = rows.last().0;
        match rows.last().1 {
            None => before,
            Some(k) => match place(before, k) {
                None => before.push(KeyedView { id, key: k, said: id }),
                Some(p) => before.update(
                    p,
                    KeyedView {
                        id: if before[p].id <= id {
                            before[p].id
                        } else {
                            id
                        },
                        key: k,
                        said: if before[p].said < id {
                            id
                        } else {
                            before[p].said
                        },
                    },
                ),
            },
        }
    }
}

/// What is done to each of `rows`.
pub open spec fn merges(known: Seq<KeyedView>, rows: Seq<(int, Option<Seq<char>>)>) -> Seq<MergeView>
    decreases rows.len(),
{
    if rows.len() == 0 {
        Seq::empty()
    } else {
        let before = keyed_after(known, rows.drop_last());
        let id = rows.last().0;
        merges(known, rows.drop_last()).push(
            match rows.last().1 {
                None => MergeView::Leave,
                Some(k) => match place(before, k) {
                    None => MergeView::Key(k),
                    Some(p) => if before[p].id <= id {
                        MergeView::MergeInto(before[p].id, before[p].said < id)
                    } else {
                        MergeView::Replace(before[p].id, k)
                    },
                },
            },
        )
    }
}

proof fn lemma_place(known: Seq<KeyedView>, key: Seq<char>)
    ensures
        match place(known, key) {
            Some(p) => 0 <= p < known.len() && known[p].key == key,
            None => forall|i: int| 0 <= i < known.len() ==> (#[trigger] known[i]).key != key,
        },
    decreases known.len(),
{
    if known.len() > 0 && known.last().key != key {
        let rest = known.drop_last();
        lemma_place(rest, key);
        if place(known, key) is None {
            assert forall|i: int| 0 <= i < known.len() implies (#[trigger] known[i]).key != key by {
                if i < rest.len() {
                    assert(rest[i] == known[i]);
                }
            }
        }
    }
}

fn find_place(known: &Vec<Keyed>, key: &str) -> (r: Option<usize>)
    ensures
        (match r {
            Some(i) => Some(i as int),
            None => None::<int>,
        }) == place(keyed_view(known@), key@),
        r is Some ==> r->0 < known@.len(),
{
    let mut i: usize = known.len();
    let ghost all = keyed_view(known@);
    assert(all.take(i as int) =~= all);
    while i > 0
        invariant
            i <= known@.len(),
            all == keyed_view(known@),
            place(all, key@) == place(all.take(i as int), key@),
        decreases i,
    {
        assert(all.take(i as int).last() == known@[i - 1]@);
        assert(all.take(i as int).drop_last() =~= all.take(i - 1));
        if same(known[i - 1].key.as_str(), key) {
            return Some(i - 1);
        }
        i -= 1;
    }
    None
}

fn with_own_wording(stored: Vec<(i64, String)>) -> (r: Vec<Keyed>)
    ensures
        keyed_view(r@) == stored_view(stored@),
{
    let mut out: Vec<Keyed> = Vec::new();
    let mut i: usize = 0;
    while i < stored.len()
        invariant
            i <= stored@.len(),
            keyed_view(out@) == stored_view(stored@).take(i as int),
        decreases stored@.len() - i,
    {
        let ghost before = out@;
        out.push(Keyed { id: stored[i].0, key: stored[i].1.clone(), said: stored[i].0 });
        proof {
            let all = stored_view(stored@);
            assert(all.take(i + 1) =~= all.take(i as int).push(all[i as int]));
            assert(keyed_view(out@) =~= keyed_view(before).push(out@.last()@));
        }
        i += 1;
    }
    assert(stored_view(stored@).take(stored@.len() as int) =~= stored_view(stored@));
    out
}

/// Goes through the stored Xids without a key, oldest first, each with the key that its wording
/// gives. Of the rows of one event the oldest stays, with the newest wording; `keyed` are the rows that
/// have their key already. Returns what is done to each, and the keyed rows after it.
pub fn merge_duplicate_xids(keyed: Vec<(i64, String)>, rows: &Vec<(i64, Option<String>)>) -> (r: (
    Vec<XidMerge>,
    Vec<Keyed>,
))
    ensures
        merge_views(r.0@) == merges(stored_view(keyed@), unkeyed_view(rows@)),
        keyed_view(r.1@) == keyed_after(stored_view(keyed@), unkeyed_view(rows@)),
{
    let ghost keyed0 = stored_view(keyed@);
    let ghost all = unkeyed_view(rows@);
    let mut known = with_own_wording(keyed);
    let mut out: Vec<XidMerge> = Vec::new();
    let mut i: usize = 0;
    assert(all.take(0) =~= Seq::empty());
    assert(merge_views(out@) =~= merges(keyed0, all.take(0)));
    while i < rows.len()
        invariant
            i <= rows@.len(),
            all == unkeyed_view(rows@),
            keyed_view(known@) == keyed_after(keyed0, all.take(i as int)),
            merge_views(out@) == merges(keyed0, all.take(i as int)),
        decreases rows@.len() - i,
    {
        proof {
            assert(all.take(i + 1).drop_last() =~= all.take(i as int));
            assert(all.take(i + 1).last() == (
                rows@[i as int].0 as int,
                opt_view(rows@[i as int].1),
            ));
        }
        let ghost out0 = out@;
        let ghost known0 = known@;
        let id: i64 = rows[i].0;
        match &rows[i].1 {
            None => {
                out.push(XidMerge::Leave);
            },
            Some(k) => match find_place(&known, k.as_str()) {
                Some(p) => {
                    proof {
                        lemma_place(keyed_view(known@), k@);
                    }
                    let first: i64 = known[p].id;
                    let said: i64 = known[p].said;
                    let key = k.clone();
                    known.set(
                        p,
                        Keyed {
                            id: if first <= id {
                                first
                            } else {
                                id
                            },
                            key,
                            said: if said < id {
                                id
                            } else {
                                said
                            },
                        },
                    );
                    assert(keyed_view(known@) =~= keyed_view(known0).update(p as int, known@[p as int]@));
                    if first <= id {
                        out.push(XidMerge::MergeInto(first, said < id));
                    } else {
                        out.push(XidMerge::Replace(first, k.clone()));
                    }
                },
                None => {
                    known.push(Keyed { id, key: k.clone(), said: id });
                    assert(keyed_view(known@) =~= keyed_view(known0).push(
                        KeyedView { id: id as int, key: k@, said: id as int },
                    ));
                    out.push(XidMerge::Key(k.clone()));
                },
            },
        }
        assert(merge_views(out@) =~= merge_views(out0).push(merge_view(out@.last())));
        i += 1;
    }
    assert(all.take(all.len() as int) =~= all);
    (out, known)
}

/// Whether no key stands twice.
pub open spec fn keys_once(known: Seq<KeyedView>) -> bool {
    forall|i: int, j: int|
        0 <= i < j < known.len() ==> (#[trigger] known[i]).key != (#[trigger] known[j]).key
}

/// Whether a keyed row stands for the event `key` with every row from `first` to `last` in it: it is
/// none younger than the first, and its wording is none older than the last.
pub open spec fn covers(known: Seq<KeyedView>, key: Seq<char>, first: int, last: int) -> bool {
    exists|p: int|
        0 <= p < known.len() && (#[trigger] known[p]).key == key && known[p].id <= first && last
            <= known[p].said
}

/// After the merge every event has one keyed row: no key stands twice, so the store can refuse a
/// second booking from there on. It is the oldest of the event's rows, with the newest wording: of every
/// row that was keyed before or named its event, it is no younger, and its wording no older.
pub proof fn law_merge_leaves_one_row_per_event(
    known: Seq<KeyedView>,
    rows: Seq<(int, Option<Seq<char>>)>,
)
    requires
        keys_once(known),
    ensures
        keys_once(keyed_after(known, rows)),
        forall|i: int|
            0 <= i < rows.len() && (#[trigger] rows[i]).1 is Some ==> covers(
                keyed_after(known, rows),
                rows[i].1->0,
                rows[i].0,
                rows[i].0,
            ),
        forall|j: int|
            0 <= j < known.len() ==> covers(
                keyed_after(known, rows),
                (#[trigger] known[j]).key,
                known[j].id,
                known[j].said,
            ),
        merges(known, rows).len() == rows.len(),
    decreases rows.len(),
{
    if rows.len() == 0 {
        assert forall|j: int| 0 <= j < known.len() implies covers(
            known,
            (#[trigger] known[j]).key,
            known[j].id,
            known[j].said,
        ) by {
            assert(known[j].key == known[j].key);
        }
    } else {
        let rest = rows.drop_last();
        law_merge_leaves_one_row_per_event(known, rest);
        let before = keyed_after(known, rest);
        let after = keyed_after(known, rows);
        let last = rows[rows.len() - 1];
        if last.1 is Some {
            let k = last.1->0;
            lemma_place(before, k);
            match place(before, k) {
                None => {
                    assert(after.last().key == k);
                    assert(covers(after, k, last.0, last.0));
                },
                Some(p) => {
                    assert(after[p].key == k);
                    assert(covers(after, k, last.0, last.0));
                },
            }
        }
        assert forall|key: Seq<char>, first: int, said: int| #[trigger]
            covers(before, key, first, said) implies covers(after, key, first, said) by {
            let p = choose|p: int|
                0 <= p < before.len() && (#[trigger] before[p]).key == key && before[p].id <= first
                    && said <= before[p].said;
            assert(after[p].key == key);
        }
        assert forall|i: int| 0 <= i < rows.len() && (#[trigger] rows[i]).1 is Some implies covers(
            after,
            rows[i].1->0,
            rows[i].0,
            rows[i].0,
        ) by {
            if i < rest.len() {
                assert(rest[i] == rows[i]);
                assert(covers(before, rest[i].1->0, rest[i].0, rest[i].0));
            }
        }
        assert forall|j: int| 0 <= j < known.len() implies covers(
            after,
            (#[trigger] known[j]).key,
            known[j].id,
            known[j].said,
        ) by {
            assert(covers(before, known[j].key, known[j].id, known[j].said));
        }
    }
}

// -------------------------------------------------------------------- retention

/// Before which instants rows are dropped.
#[derive(Clone, Copy, PartialEq, Eq, Structural, Debug)]
pub struct PruneCuts {
    pub samples: i64,
    pub minutes: i64,
    pub ten_minutes: i64,
    /// the gateway's log, the incidents that have ended, the alerts and the probes
    pub records: i64,
    /// how many loadouts and how many benchmark runs stay, however old
    pub loadouts: u32,
    pub bench_runs: u32,
}

/// Before which instants rows are dropped: each tier by its own length, the records by the longest.
pub fn prune(now: i64, keep: Retention) -> (r: PruneCuts)
    requires
        i64::MIN <= now - keep.raw <= i64::MAX,
        i64::MIN <= now - keep.m1 <= i64::MAX,
        i64::MIN <= now - keep.m10 <= i64::MAX,
    ensures
        r.samples == now - keep.raw,
        r.minutes == now - keep.m1,
        r.ten_minutes == now - keep.m10,
        r.records == now - keep.m10,
        r.loadouts == 100,
        r.bench_runs == 500,
{
    PruneCuts {
        samples: now - keep.raw,
        minutes: now - keep.m1,
        ten_minutes: now - keep.m10,
        records: now - keep.m10,
        loadouts: 100,
        bench_runs: 500,
    }
}

/// Whether an incident is dropped: it has ended, and before the cut.
pub open spec fn drops_incident(end: Option<i64>, cut: int) -> bool {
    match end {
        Some(e) => e < cut,
        None => false,
    }
}

/// Whether an incident is dropped: it has ended, and before the cut. An open one never is.
pub fn prunes_incident(end: Option<i64>, cut: i64) -> (r: bool)
    ensures
        r == drops_incident(end, cut as int),
{
    match end {
        Some(e) => e < cut,
        None => false,
    }
}

/// What is dropped is nowhere shown: an incident that reaches into the time that is kept stays, and
/// with it every open one.
pub proof fn law_pruning_keeps_what_is_shown(start: i64, end: Option<i64>, cut: int)
    requires
        end is Some ==> start <= end->0,
    ensures
        drops_incident(end, cut) <==> !reaches(start, end, cut),
        end is None ==> !drops_incident(end, cut),
{
}

// ----------------------------------------------------------------------- probes

/// Why a probe that was stored before probes were judged is no reading: its first token was late, it
/// was skipped, or it did not complete. `slow` is whether its first token took longer than allowed.
pub open spec fn legacy_fault(valid: bool, status: Seq<char>, slow: bool) -> Option<Seq<char>> {
    if !valid {
        None
    } else if status == "ok"@ {
        if slow {
            Some("slow_ttft"@)
        } else {
            None
        }
    } else if status == "skipped_busy"@ {
        Some("busy_before"@)
    } else {
        Some(status)
    }
}

/// Why a probe that was stored before probes were judged is no reading: its first token was late, it
/// was skipped, or it did not complete. `slow` is whether its first token took longer than allowed.
pub fn invalidate_legacy_probes(valid: bool, status: &str, slow: bool) -> (r: Option<String>)
    ensures
        opt_view(r) == legacy_fault(valid, status@, slow),
{
    if !valid {
        None
    } else if same(status, "ok") {
        if slow {
            Some("slow_ttft".to_owned())
        } else {
            None
        }
    } else if same(status, "skipped_busy") {
        Some("busy_before".to_owned())
    } else {
        Some(status.to_owned())
    }
}

/// The window around a probe in which the stored samples tell who generated: a poll and a second on
/// either side of its own wall time.
pub open spec fn probe_window(ts: int, wall_secs: int, poll_secs: int) -> (int, int) {
    let slack = (if poll_secs > 1 {
        poll_secs
    } else {
        1
    }) + 1;
    (ts - slack, ts + wall_secs + slack)
}

/// The window around a probe in which the stored samples tell who generated: a poll and a second on
/// either side of its own wall time.
pub fn gauge_window(ts: i64, wall_secs: i64, poll_secs: i64) -> (r: (i64, i64))
    requires
        poll_secs < i64::MAX,
        probe_window(ts as int, wall_secs as int, poll_secs as int).0 >= i64::MIN,
        i64::MIN <= ts + wall_secs <= i64::MAX,
        probe_window(ts as int, wall_secs as int, poll_secs as int).1 <= i64::MAX,
    ensures
        (r.0 as int, r.1 as int) == probe_window(ts as int, wall_secs as int, poll_secs as int),
{
    let slack: i64 = (if poll_secs > 1 {
        poll_secs
    } else {
        1
    }) + 1;
    (ts - slack, ts + wall_secs + slack)
}

/// The first counter among the samples.
pub open spec fn first_counter(samples: Seq<Option<u64>>) -> Option<u64>
    decreases samples.len(),
{
    if samples.len() == 0 {
        None
    } else if samples[0] is Some {
        samples[0]
    } else {
        first_counter(samples.drop_first())
    }
}

/// The last counter among the samples.
pub open spec fn last_counter(samples: Seq<Option<u64>>) -> Option<u64>
    decreases samples.len(),
{
    if samples.len() == 0 {
        None
    } else if samples.last() is Some {
        samples.last()
    } else {
        last_counter(samples.drop_last())
    }
}

/// Whether the samples show that something else generated during a probe: there are two of them at
/// least, and the counter grew by more than the probe's own tokens and the margin.
pub open spec fn was_contended(samples: Seq<Option<u64>>, tokens: u32, margin: u64) -> bool {
    let (first, last) = (first_counter(samples), last_counter(samples));
    samples.len() >= 2 && first is Some && last is Some && last->0 >= first->0 && last->0 - first->0
        > tokens + margin
}

/// The sentence for a probe that something else generated during.
pub open spec fn contended_text(grown: nat, tokens: u32, window: int, n: nat) -> Seq<char> {
    "generation_tokens_total grew by "@ + dec(grown) + ", "@ + dec_int(grown - tokens)
        + " more than the probe's own "@ + dec(tokens as nat)
        + " tokens: something else generated on this engine during the probe (found on repair from the stored samples, "@
        + dec_int(window) + "s window, "@ + dec(n)
        + " samples in it - no finer than the poll cadence)"@
}

/// Whether the samples in a probe's window, in order, show that something else generated during it,
/// and the sentence that says so. With too few samples nothing is said.
pub fn repair_probes_the_gauge_missed(
    samples: &Vec<Option<u64>>,
    tokens: u32,
    margin: u64,
    window_secs: i64,
) -> (r: Option<String>)
    ensures
        opt_view(r) == (if was_contended(samples@, tokens, margin) {
            Some(
                contended_text(
                    (last_counter(samples@)->0 - first_counter(samples@)->0) as nat,
                    tokens,
                    window_secs as int,
                    samples@.len(),
                ),
            )
        } else {
            None
        }),
{
    let n: usize = samples.len();
    let mut first: Option<u64> = None;
    let mut i: usize = 0;
    assert(samples@.skip(0) =~= samples@);
    while i < n && first.is_none()
        invariant
            i <= n,
            n == samples@.len(),
            first is None ==> first_counter(samples@) == first_counter(samples@.skip(i as int)),
            first is Some ==> first_counter(samples@) == first,
        decreases n - i + (if first is None { 1int } else { 0 }),
    {
        assert(samples@.skip(i as int)[0] == samples@[i as int]);
        assert(samples@.skip(i as int).drop_first() =~= samples@.skip(i + 1));
        first = samples[i];
        i += 1;
    }
    let mut last: Option<u64> = None;
    let mut j: usize = n;
    assert(samples@.take(n as int) =~= samples@);
    while j > 0 && last.is_none()
        invariant
            j <= n,
            n == samples@.len(),
            last is None ==> last_counter(samples@) == last_counter(samples@.take(j as int)),
            last is Some ==> last_counter(samples@) == last,
        decreases j,
    {
        assert(samples@.take(j as int).last() == samples@[j - 1]);
        assert(samples@.take(j as int).drop_last() =~= samples@.take(j - 1));
        last = samples[j - 1];
        j -= 1;
    }
    if n < 2 {
        return None;
    }
    if let Some(a) = first {
        if let Some(b) = last {
            if b >= a && (b - a) as u128 > tokens as u128 + margin as u128 {
                let grown: u64 = b - a;
                let mut s = "generation_tokens_total grew by ".to_owned();
                s.append(dec_u64(grown).as_str());
                s.append(", ");
                s.append(dec_u64(grown - tokens as u64).as_str());
                s.append(" more than the probe's own ");
                s.append(dec_u64(tokens as u64).as_str());
                s.append(
                    " tokens: something else generated on this engine during the probe (found on repair from the stored samples, ",
                );
                s.append(dec_i64(window_secs).as_str());
                s.append("s window, ");
                s.append(dec_u64(n as u64).as_str());
                s.append(" samples in it - no finer than the poll cadence)");
                return Some(s);
            }
        }
    }
    None
}

/// A probe is taken out only on evidence: with fewer than two samples around it, with no counter
/// among them, or with no more growth than its own tokens, it stays.
pub proof fn law_repair_needs_evidence(samples: Seq<Option<u64>>, tokens: u32, margin: u64)
    requires
        was_contended(samples, tokens, margin),
    ensures
        samples.len() >= 2,
        exists|i: int, j: int|
            0 <= i < samples.len() && 0 <= j < samples.len() && (#[trigger] samples[i]) is Some && (
            #[trigger] samples[j]) is Some && samples[j]->0 > samples[i]->0 + tokens,
{
    lemma_first_counter(samples);
    lemma_last_counter(samples);
    let i = choose|i: int| 0 <= i < samples.len() && #[trigger] samples[i] == first_counter(samples);
    let j = choose|j: int| 0 <= j < samples.len() && #[trigger] samples[j] == last_counter(samples);
    assert(samples[i] is Some && samples[j] is Some);
}

proof fn lemma_first_counter(samples: Seq<Option<u64>>)
    ensures
        first_counter(samples) is Some ==> exists|i: int|
            0 <= i < samples.len() && #[trigger] samples[i] == first_counter(samples),
    decreases samples.len(),
{
    if samples.len() > 0 {
        if samples[0] is None {
            let rest = samples.drop_first();
            lemma_first_counter(rest);
            if first_counter(samples) is Some {
                let i = choose|i: int| 0 <= i < rest.len() && #[trigger] rest[i] == first_counter(rest);
                assert(samples[i + 1] == first_counter(samples));
            }
        }
    }
}

proof fn lemma_last_counter(samples: Seq<Option<u64>>)
    ensures
        last_counter(samples) is Some ==> exists|i: int|
            0 <= i < samples.len() && #[trigger] samples[i] == last_counter(samples),
    decreases samples.len(),
{
    if samples.len() > 0 {
        if samples.last() is None {
            let rest = samples.drop_last();
            lemma_last_counter(rest);
            if last_counter(samples) is Some {
                let i = choose|i: int| 0 <= i < rest.len() && #[trigger] rest[i] == last_counter(rest);
                assert(samples[i] == last_counter(samples));
            }
        } else {
            assert(samples[samples.len() - 1] == last_counter(samples));
        }
    }
}

/// How many readings there must be before one of them can be told as a burst.
pub const BURST_MIN_READINGS: usize = 8;

/// Which readings are answers that came in one piece: those over the ceiling, where there are enough
/// readings to tell.
pub fn repair_burst_probes(over: &Vec<bool>) -> (r: Vec<usize>)
    ensures
        over@.len() < BURST_MIN_READINGS ==> r@.len() == 0,
        forall|k: int| 0 <= k < r@.len() ==> (#[trigger] r@[k]) < over@.len(),
        forall|j: int, k: int| 0 <= j < k < r@.len() ==> r@[j] < r@[k],
        over@.len() >= BURST_MIN_READINGS ==> forall|i: int|
            0 <= i < over@.len() ==> r@.contains(i as usize) == #[trigger] over@[i],
{
    let mut out: Vec<usize> = Vec::new();
    if over.len() < BURST_MIN_READINGS {
        return out;
    }
    let mut i: usize = 0;
    while i < over.len()
        invariant
            i <= over@.len(),
            forall|k: int| 0 <= k < out@.len() ==> (#[trigger] out@[k]) < i,
            forall|j: int, k: int| 0 <= j < k < out@.len() ==> out@[j] < out@[k],
            forall|x: int| 0 <= x < i ==> out@.contains(x as usize) == #[trigger] over@[x],
        decreases over@.len() - i,
    {
        let ghost before = out@;
        if over[i] {
            out.push(i);
        }
        proof {
            assert forall|x: int| 0 <= x < i + 1 implies out@.contains(x as usize)
                == #[trigger] over@[x] by {
                if x < i {
                    if before.contains(x as usize) {
                        let k = choose|k: int| 0 <= k < before.len() && before[k] == x as usize;
                        assert(out@[k] == x as usize);
                    }
                    if out@.contains(x as usize) {
                        let k = choose|k: int| 0 <= k < out@.len() && out@[k] == x as usize;
                        assert(before[k] == x as usize);
                    }
                } else if over@[x] {
                    assert(out@.last() == i);
                } else if out@.contains(x as usize) {
                    let k = choose|k: int| 0 <= k < out@.len() && out@[k] == x as usize;
                    assert(before[k] == x as usize);
                }
            }
        }
        i += 1;
    }
    out
}

// ---------------------------------------------------------------- token buckets

/// Whether a bucket of `res` seconds says more cached tokens than can be: more than any hardware
/// serves, and more than twice the prompt tokens of the same bucket.
pub fn is_impossible_bucket(res: u64, cached: u64, prompt: u64) -> (r: bool)
    ensures
        r == (cached > 500_000 * res && cached > 2 * prompt),
{
    cached as u128 > 500_000 * res as u128 && cached as u128 > 2 * prompt as u128
}

/// The tokens that the holes can take, all together.
pub open spec fn room_of(holes: Seq<u64>) -> nat
    decreases holes.len(),
{
    if holes.len() == 0 {
        0
    } else {
        room_of(holes.drop_last()) + holes.last() as nat
    }
}

/// How a bucket's tokens are spread over the earlier buckets that have room: each takes its prompt
/// tokens times `part` over `whole`.
#[derive(Clone, Copy, PartialEq, Eq, Structural, Debug)]
pub struct Spread {
    pub part: u64,
    pub whole: u128,
    /// the tokens that are placed
    pub placed: u64,
}

/// How the `sum` tokens of an impossible bucket are spread over earlier buckets with these prompt
/// tokens: in proportion to them, and never more than them.
pub open spec fn spread_of(sum: u64, holes: Seq<u64>) -> Spread {
    let room = room_of(holes);
    if room == 0 {
        Spread { part: 0, whole: 1, placed: 0 }
    } else if room <= sum {
        Spread { part: 1, whole: 1, placed: room as u64 }
    } else {
        Spread { part: sum, whole: room as u128, placed: sum }
    }
}

proof fn lemma_room_fits(holes: Seq<u64>)
    ensures
        room_of(holes) <= holes.len() * u64::MAX,
    decreases holes.len(),
{
    if holes.len() > 0 {
        lemma_room_fits(holes.drop_last());
        assert(holes.len() * u64::MAX == (holes.len() - 1) * u64::MAX + u64::MAX) by (nonlinear_arith)
            requires
                holes.len() > 0,
        ;
    }
}

proof fn lemma_room_is_small(holes: Seq<u64>)
    requires
        holes.len() <= u64::MAX,
    ensures
        room_of(holes) <= u128::MAX,
{
    lemma_room_fits(holes);
    assert(holes.len() * u64::MAX <= u64::MAX * u64::MAX) by (nonlinear_arith)
        requires
            holes.len() <= u64::MAX,
    ;
}

/// How the `sum` tokens of an impossible bucket are spread over earlier buckets with these prompt
/// tokens: in proportion to them, and never more than them.
pub fn spread_over(sum: u64, holes: &Vec<u64>) -> (r: Spread)
    ensures
        r == spread_of(sum, holes@),
{
    let mut room: u128 = 0;
    let mut i: usize = 0;
    while i < holes.len()
        invariant
            i <= holes@.len(),
            room == room_of(holes@.take(i as int)),
        decreases holes@.len() - i,
    {
        proof {
            assert(holes@.take(i + 1).drop_last() =~= holes@.take(i as int));
            lemma_room_is_small(holes@.take(i + 1));
        }
        room = room + holes[i] as u128;
        i += 1;
    }
    assert(holes@.take(holes@.len() as int) =~= holes@);
    if room == 0 {
        Spread { part: 0, whole: 1, placed: 0 }
    } else if room <= sum as u128 {
        Spread { part: 1, whole: 1, placed: room as u64 }
    } else {
        Spread { part: sum, whole: room, placed: sum }
    }
}

/// What the holes take together, times `part`: the shares add up to what is placed, and none is more
/// than the hole's own prompt tokens. Where there is room, no token is lost.
pub proof fn law_spread_keeps_the_total(sum: u64, holes: Seq<u64>, r: Spread)
    requires
        room_of(holes) <= u128::MAX,
        r == spread_of(sum, holes),
    ensures
        room_of(holes) * r.part == r.placed * r.whole,
        r.part <= r.whole,
        r.whole > 0,
        r.placed <= sum,
        room_of(holes) >= sum ==> r.placed == sum,
        r.placed <= room_of(holes),
{
    let room = room_of(holes);
    assert(room * r.part == r.placed * r.whole) by (nonlinear_arith)
        requires
            room == 0 ==> r.part == 0 && r.placed == 0,
            0 < room <= sum ==> r.part == 1 && r.whole == 1 && r.placed == room,
            room > sum ==> r.part == sum && r.whole == room && r.placed == sum,
    ;
}

/// The cached tokens of a bucket.
#[derive(Clone, Copy, PartialEq, Eq, Structural, Debug)]
pub enum Cached {
    /// so many; 0 where none were recorded
    Tokens(u64),
    /// the bucket's prompt tokens times the first over the second
    Share(u64, u128),
}

/// A stored bucket of `res` seconds: its prompt tokens, and how many of them came from the cache.
#[derive(Clone, Copy, PartialEq, Eq, Structural, Debug)]
pub struct Bucket {
    pub res: u64,
    pub ts: i64,
    pub prompt: u64,
    pub cached: Cached,
}

impl Bucket {
    /// A share is a part of a whole.
    pub open spec fn wf(self) -> bool {
        match self.cached {
            Cached::Tokens(_) => true,
            Cached::Share(part, whole) => part <= whole && whole > 0,
        }
    }

    /// The cached tokens, times `under`.
    pub open spec fn over(self) -> int {
        match self.cached {
            Cached::Tokens(n) => n as int,
            Cached::Share(part, _) => self.prompt * part,
        }
    }

    /// What `over` is to be divided by.
    pub open spec fn under(self) -> int {
        match self.cached {
            Cached::Tokens(_) => 1,
            Cached::Share(_, whole) => whole as int,
        }
    }

    /// The cached tokens, which may be no whole number.
    pub open spec fn tokens(self) -> real {
        self.over() as real / self.under() as real
    }

    /// Whether the bucket says more cached tokens than can be.
    pub open spec fn impossible(self) -> bool {
        self.over() > 500_000 * self.res * self.under() && self.over() > 2 * self.prompt
            * self.under()
    }

    /// Whether the bucket can take tokens back from the one of `res` seconds at `ts`: it is an earlier
    /// one of the same length, in which prompts were read and nothing came from the cache.
    pub open spec fn has_room(self, res: u64, ts: i64) -> bool {
        self.res == res && self.ts < ts && self.prompt > 0 && self.over() == 0
    }
}

/// The prompt tokens of the buckets that can take tokens back.
pub open spec fn holes_of(rows: Seq<Bucket>, res: u64, ts: i64) -> Seq<u64>
    decreases rows.len(),
{
    if rows.len() == 0 {
        Seq::empty()
    } else {
        let before = holes_of(rows.drop_last(), res, ts);
        if rows.last().has_room(res, ts) {
            before.push(rows.last().prompt)
        } else {
            before
        }
    }
}

/// A bucket after the one of `res` seconds at `ts` was spread over it and others.
pub open spec fn filled(b: Bucket, res: u64, ts: i64, s: Spread) -> Bucket {
    if b.has_room(res, ts) {
        Bucket { cached: Cached::Share(s.part, s.whole), ..b }
    } else {
        b
    }
}

/// How the tokens of bucket `k` are spread.
pub open spec fn spread_at(rows: Seq<Bucket>, k: int) -> Spread {
    spread_of(rows[k].over() as u64, holes_of(rows, rows[k].res, rows[k].ts))
}

/// The buckets after the tokens of bucket `k` were spread over the earlier ones.
pub open spec fn spread_back(rows: Seq<Bucket>, k: int) -> Seq<Bucket> {
    Seq::new(
        rows.len(),
        |j: int|
            if j == k {
                Bucket { cached: Cached::Tokens(0), ..rows[k] }
            } else {
                filled(rows[j], rows[k].res, rows[k].ts, spread_at(rows, k))
            },
    )
}

/// A bucket that was repaired: the tokens it had, and how many of them found a place.
#[derive(Clone, Copy, PartialEq, Eq, Structural, Debug)]
pub struct Repaired {
    pub res: u64,
    pub ts: i64,
    pub tokens: u64,
    pub placed: u64,
}

/// The buckets, and what was repaired, after the first `n` of them were looked at in turn.
pub open spec fn repaired(rows: Seq<Bucket>, n: int) -> (Seq<Bucket>, Seq<Repaired>)
    decreases n,
{
    if n <= 0 {
        (rows, Seq::empty())
    } else {
        let before = repaired(rows, n - 1);
        let k = n - 1;
        let b = before.0[k];
        if b.impossible() {
            let r = Repaired {
                res: b.res,
                ts: b.ts,
                tokens: b.over() as u64,
                placed: spread_at(before.0, k).placed,
            };
            (spread_back(before.0, k), before.1.push(r))
        } else {
            before
        }
    }
}

/// Whether every bucket is one that can be.
pub open spec fn all_wf(rows: Seq<Bucket>) -> bool {
    forall|j: int| 0 <= j < rows.len() ==> (#[trigger] rows[j]).wf()
}

// A share of the prompt tokens is no more than they are.
proof fn lemma_share_is_possible(b: Bucket)
    requires
        b.wf(),
        b.cached is Share,
    ensures
        !b.impossible(),
        b.over() <= b.prompt * b.under(),
{
    let part = b.cached->Share_0;
    let whole = b.cached->Share_1;
    assert(b.prompt * part <= b.prompt * whole) by (nonlinear_arith)
        requires
            part <= whole,
    ;
    assert(2 * b.prompt * whole == b.prompt * whole + b.prompt * whole) by (nonlinear_arith);
    assert(b.prompt * whole >= 0) by (nonlinear_arith);
}

proof fn lemma_spread_is_wf(sum: u64, holes: Seq<u64>)
    requires
        room_of(holes) <= u128::MAX,
    ensures
        spread_of(sum, holes).part <= spread_of(sum, holes).whole,
        spread_of(sum, holes).whole > 0,
        spread_of(sum, holes).placed <= sum,
{
}

proof fn lemma_holes_are_few(rows: Seq<Bucket>, res: u64, ts: i64)
    ensures
        holes_of(rows, res, ts).len() <= rows.len(),
    decreases rows.len(),
{
    if rows.len() > 0 {
        lemma_holes_are_few(rows.drop_last(), res, ts);
    }
}

proof fn lemma_spread_back(rows: Seq<Bucket>, k: int)
    requires
        0 <= k < rows.len() <= u64::MAX,
        all_wf(rows),
        rows[k].impossible(),
    ensures
        all_wf(spread_back(rows, k)),
        !spread_back(rows, k)[k].impossible(),
        rows[k].cached is Tokens,
        spread_at(rows, k).placed <= rows[k].over(),
        room_of(holes_of(rows, rows[k].res, rows[k].ts)) <= u128::MAX,
        forall|j: int|
            0 <= j < rows.len() && j != k ==> (#[trigger] spread_back(rows, k)[j] == rows[j]
                || spread_back(rows, k)[j].cached is Share && !rows[j].impossible()
                && rows[j].over() == 0 && rows[j].prompt > 0),
{
    let b = rows[k];
    assert(b.wf());
    if b.cached is Share {
        lemma_share_is_possible(b);
    }
    let holes = holes_of(rows, b.res, b.ts);
    lemma_holes_are_few(rows, b.res, b.ts);
    lemma_room_is_small(holes);
    lemma_spread_is_wf(b.over() as u64, holes);
    let after = spread_back(rows, k);
    assert forall|j: int| 0 <= j < after.len() implies (#[trigger] after[j]).wf() by {
        assert(rows[j].wf());
    }
    assert forall|j: int| 0 <= j < rows.len() && j != k implies (#[trigger] after[j] == rows[j]
        || after[j].cached is Share && !rows[j].impossible() && rows[j].over() == 0 && rows[j].prompt
        > 0) by {
        if rows[j].has_room(b.res, b.ts) {
            assert(rows[j].over() == 0);
            assert(0 <= 2 * rows[j].prompt * rows[j].under()) by (nonlinear_arith)
                requires
                    rows[j].under() >= 0,
            ;
        }
    }
}

/// The cached tokens of the buckets of `res` seconds, all together.
pub open spec fn total_of(rows: Seq<Bucket>, res: u64) -> real
    decreases rows.len(),
{
    if rows.len() == 0 {
        0real
    } else {
        total_of(rows.drop_last(), res) + (if rows.last().res == res {
            rows.last().tokens()
        } else {
            0real
        })
    }
}

/// What was lost of the buckets of `res` seconds that were repaired: the tokens that found no place.
pub open spec fn lost_of(out: Seq<Repaired>, res: u64) -> real
    decreases out.len(),
{
    if out.len() == 0 {
        0real
    } else {
        lost_of(out.drop_last(), res) + (if out.last().res == res {
            out.last().tokens as real - out.last().placed as real
        } else {
            0real
        })
    }
}

proof fn lemma_shares_add(a: int, b: int, part: int, whole: int)
    requires
        whole > 0,
    ensures
        ((a + b) * part) as real / whole as real == (a * part) as real / whole as real + (b
            * part) as real / whole as real,
{
    let x = (a * part) as real;
    let y = (b * part) as real;
    let w = whole as real;
    assert((a + b) * part == a * part + b * part) by (nonlinear_arith);
    assert(((a + b) * part) as real == x + y);
    assert((x + y) / w == x / w + y / w) by (nonlinear_arith)
        requires
            w > 0real,
    ;
}

proof fn lemma_whole_tokens(b: Bucket)
    requires
        b.cached is Tokens,
    ensures
        b.tokens() == b.over() as real,
{
    let x = b.over() as real;
    let one = 1int as real;
    assert(x / one == x) by (nonlinear_arith)
        requires
            one == 1real,
    ;
}

proof fn lemma_spread_total(rows: Seq<Bucket>, k: int, res: u64, m: int)
    requires
        0 <= k < rows.len() <= u64::MAX,
        0 <= m <= rows.len(),
        all_wf(rows),
        rows[k].impossible(),
    ensures
        ({
            let s = spread_at(rows, k);
            let holes = holes_of(rows.take(m), rows[k].res, rows[k].ts);
            total_of(spread_back(rows, k).take(m), res) == total_of(rows.take(m), res) - (if k < m
                && rows[k].res == res {
                rows[k].over() as real
            } else {
                0real
            }) + (if rows[k].res == res {
                (room_of(holes) * s.part) as real / s.whole as real
            } else {
                0real
            })
        }),
    decreases m,
{
    let after = spread_back(rows, k);
    let s = spread_at(rows, k);
    lemma_spread_back(rows, k);
    lemma_spread_is_wf(rows[k].over() as u64, holes_of(rows, rows[k].res, rows[k].ts));
    let w = s.whole as real;
    assert(0real / w == 0real) by (nonlinear_arith)
        requires
            w > 0real,
    ;
    if m == 0 {
        assert(0 * s.part == 0);
    } else {
        let j = m - 1;
        lemma_spread_total(rows, k, res, j);
        assert(after.take(m).drop_last() =~= after.take(j));
        assert(rows.take(m).drop_last() =~= rows.take(j));
        assert(after.take(m).last() == after[j]);
        assert(rows.take(m).last() == rows[j]);
        let held = holes_of(rows.take(j), rows[k].res, rows[k].ts);
        assert(rows[j].wf());
        if j == k {
            lemma_whole_tokens(rows[k]);
            lemma_whole_tokens(after[k]);
        } else if rows[j].has_room(rows[k].res, rows[k].ts) {
            let u = rows[j].under() as real;
            assert(0real / u == 0real) by (nonlinear_arith)
                requires
                    u > 0real,
            ;
            assert(rows[j].tokens() == 0real);
            assert(held.push(rows[j].prompt).drop_last() =~= held);
            lemma_shares_add(room_of(held) as int, rows[j].prompt as int, s.part as int, s.whole as int);
        }
    }
}

proof fn lemma_spread_keeps_total(rows: Seq<Bucket>, k: int, res: u64)
    requires
        0 <= k < rows.len() <= u64::MAX,
        all_wf(rows),
        rows[k].impossible(),
    ensures
        total_of(spread_back(rows, k), res) == total_of(rows, res) - (if rows[k].res == res {
            rows[k].over() as real - spread_at(rows, k).placed as real
        } else {
            0real
        }),
{
    let s = spread_at(rows, k);
    let holes = holes_of(rows, rows[k].res, rows[k].ts);
    lemma_spread_total(rows, k, res, rows.len() as int);
    lemma_spread_back(rows, k);
    assert(rows.take(rows.len() as int) =~= rows);
    assert(spread_back(rows, k).take(rows.len() as int) =~= spread_back(rows, k));
    law_spread_keeps_the_total(rows[k].over() as u64, holes, s);
    let placed = s.placed as real;
    let w = s.whole as real;
    assert((s.placed * s.whole) as real == placed * w) by (nonlinear_arith)
        requires
            placed == s.placed as real,
            w == s.whole as real,
    ;
    assert((placed * w) / w == placed) by (nonlinear_arith)
        requires
            w > 0real,
    ;
}

proof fn lemma_repaired(rows: Seq<Bucket>, n: int, res: u64)
    requires
        0 <= n <= rows.len() <= u64::MAX,
        all_wf(rows),
    ensures
        ({
            let t = repaired(rows, n).0;
            let out = repaired(rows, n).1;
            &&& t.len() == rows.len()
            &&& all_wf(t)
            &&& forall|j: int| 0 <= j < n ==> !(#[trigger] t[j]).impossible()
            &&& forall|j: int|
                0 <= j < t.len() ==> (#[trigger] t[j] == rows[j] || is_filled(rows[j], t[j])
                    || rows[j].impossible() && t[j].cached == Cached::Tokens(0))
            &&& forall|j: int| n <= j < t.len() && rows[j].impossible() ==> #[trigger] t[j] == rows[j]
            &&& forall|j: int|
                0 <= j < t.len() ==> (#[trigger] t[j]).res == rows[j].res && t[j].ts == rows[j].ts
                    && t[j].prompt == rows[j].prompt
            &&& forall|i: int|
                0 <= i < out.len() ==> (#[trigger] out[i]).placed <= out[i].tokens && exists|j: int|
                    0 <= j < n && is_repair_of(out[i], #[trigger] rows[j])
            &&& total_of(t, res) == total_of(rows, res) - lost_of(out, res)
        }),
    decreases n,
{
    if n > 0 {
        lemma_repaired(rows, n - 1, res);
        let before = repaired(rows, n - 1);
        let k = n - 1;
        let t = repaired(rows, n).0;
        let out = repaired(rows, n).1;
        assert forall|j: int| 0 <= j < rows.len() && (#[trigger] before.0[j]).cached is Share implies !before.0[j].impossible() by {
            lemma_share_is_possible(before.0[j]);
        }
        if before.0[k].impossible() {
            lemma_spread_back(before.0, k);
            lemma_spread_keeps_total(before.0, k, res);
            assert(out.drop_last() =~= before.1);
            assert(before.0[k] == rows[k]);
            assert(is_repair_of(out.last(), rows[k]));
            assert forall|j: int| 0 <= j < n implies !(#[trigger] t[j]).impossible() by {
                if j < k {
                    assert(!before.0[j].impossible());
                    if t[j].cached is Share {
                        lemma_share_is_possible(t[j]);
                    }
                }
            }
            assert forall|j: int| n <= j < t.len() && rows[j].impossible() implies #[trigger] t[j]
                == rows[j] by {
                assert(before.0[j] == rows[j]);
            }
            assert forall|j: int| 0 <= j < t.len() implies (#[trigger] t[j]).res == rows[j].res
                && t[j].ts == rows[j].ts && t[j].prompt == rows[j].prompt by {
                assert(before.0[j].res == rows[j].res);
            }
            assert forall|j: int| 0 <= j < t.len() implies (#[trigger] t[j] == rows[j] || is_filled(
                rows[j],
                t[j],
            ) || rows[j].impossible() && t[j].cached == Cached::Tokens(0)) by {
                assert(before.0[j] == rows[j] || is_filled(rows[j], before.0[j])
                    || rows[j].impossible() && before.0[j].cached == Cached::Tokens(0));
                assert(before.0[j].prompt == rows[j].prompt);
            }
            assert forall|i: int| 0 <= i < out.len() implies (#[trigger] out[i]).placed
                <= out[i].tokens && exists|j: int|
                0 <= j < n && is_repair_of(out[i], #[trigger] rows[j]) by {
                if i < before.1.len() {
                    assert(out[i] == before.1[i]);
                    let j = choose|j: int|
                        0 <= j < n - 1 && is_repair_of(before.1[i], #[trigger] rows[j]);
                    assert(is_repair_of(out[i], rows[j]));
                }
            }
        }
    }
}

/// Whether `after` has taken tokens back that `before` had room for: prompts were read in it, and
/// nothing came from the cache, or what it said was impossible and was taken out first.
pub open spec fn is_filled(before: Bucket, after: Bucket) -> bool {
    after.cached is Share && before.prompt > 0 && (before.over() == 0 || before.impossible())
}

/// Whether a repair is that of this bucket, which was impossible.
pub open spec fn is_repair_of(r: Repaired, b: Bucket) -> bool {
    b.impossible() && r.res == b.res && r.ts == b.ts && r.tokens == b.over()
}

proof fn lemma_nothing_to_repair(rows: Seq<Bucket>, n: int)
    requires
        0 <= n <= rows.len(),
        forall|j: int| 0 <= j < rows.len() ==> !(#[trigger] rows[j]).impossible(),
    ensures
        repaired(rows, n) == (rows, Seq::<Repaired>::empty()),
    decreases n,
{
    if n > 0 {
        lemma_nothing_to_repair(rows, n - 1);
        assert(!rows[n - 1].impossible());
    }
}

/// After a repair no bucket is impossible, so a second repair finds none and changes nothing.
pub proof fn law_a_second_repair_finds_nothing(rows: Seq<Bucket>)
    requires
        all_wf(rows),
        rows.len() <= u64::MAX,
    ensures
        ({
            let after = repaired(rows, rows.len() as int).0;
            &&& after.len() == rows.len()
            &&& forall|j: int| 0 <= j < after.len() ==> !(#[trigger] after[j]).impossible()
            &&& repaired(after, after.len() as int) == (after, Seq::<Repaired>::empty())
        }),
{
    let n = rows.len() as int;
    lemma_repaired(rows, n, 0);
    lemma_nothing_to_repair(repaired(rows, n).0, n);
}

/// Only impossible buckets are emptied, and only buckets with room are filled, none with more than its
/// prompt tokens; each repair is told with the bucket's own tokens, and places no more.
pub proof fn law_a_repair_touches_nothing_else(rows: Seq<Bucket>)
    requires
        all_wf(rows),
        rows.len() <= u64::MAX,
    ensures
        ({
            let after = repaired(rows, rows.len() as int).0;
            let out = repaired(rows, rows.len() as int).1;
            &&& forall|j: int|
                0 <= j < rows.len() ==> {
                    ||| #[trigger] after[j] == rows[j]
                    ||| after[j] == (Bucket { cached: after[j].cached, ..rows[j] }) && is_filled(
                        rows[j],
                        after[j],
                    ) && after[j].over() <= after[j].prompt * after[j].under()
                    ||| rows[j].impossible() && after[j] == (Bucket {
                        cached: Cached::Tokens(0),
                        ..rows[j]
                    })
                }
            &&& forall|i: int|
                0 <= i < out.len() ==> (#[trigger] out[i]).placed <= out[i].tokens && exists|j: int|
                    0 <= j < rows.len() && is_repair_of(out[i], #[trigger] rows[j])
        }),
{
    let n = rows.len() as int;
    lemma_repaired(rows, n, 0);
    let after = repaired(rows, n).0;
    assert forall|j: int| 0 <= j < n && (#[trigger] after[j]).cached is Share implies after[j].over()
        <= after[j].prompt * after[j].under() by {
        lemma_share_is_possible(after[j]);
    }
    assert forall|j: int| 0 <= j < n implies {
        ||| #[trigger] after[j] == rows[j]
        ||| after[j] == (Bucket { cached: after[j].cached, ..rows[j] }) && is_filled(
            rows[j],
            after[j],
        ) && after[j].over() <= after[j].prompt * after[j].under()
        ||| rows[j].impossible() && after[j] == (Bucket { cached: Cached::Tokens(0), ..rows[j] })
    } by {
        assert(after[j].res == rows[j].res);
    }
}

/// A repair takes from the total of its buckets no more than the tokens that found no place.
pub proof fn law_a_repair_keeps_what_is_placed(rows: Seq<Bucket>, res: u64)
    requires
        all_wf(rows),
        rows.len() <= u64::MAX,
    ensures
        total_of(repaired(rows, rows.len() as int).0, res) == total_of(rows, res) - lost_of(
            repaired(rows, rows.len() as int).1,
            res,
        ),
{
    lemma_repaired(rows, rows.len() as int, res);
}

impl Bucket {
    fn is_impossible(&self) -> (r: bool)
        requires
            self.wf(),
        ensures
            r == self.impossible(),
    {
        match self.cached {
            Cached::Tokens(n) => is_impossible_bucket(self.res, n, self.prompt),
            Cached::Share(_, _) => {
                proof {
                    lemma_share_is_possible(*self);
                }
                false
            },
        }
    }

    fn takes_back(&self, res: u64, ts: i64) -> (r: bool)
        ensures
            r == self.has_room(res, ts),
    {
        let nothing = match self.cached {
            Cached::Tokens(n) => n == 0,
            Cached::Share(part, _) => part == 0,
        };
        proof {
            if let Cached::Share(part, _) = self.cached {
                assert(self.prompt > 0 ==> ((self.prompt * part == 0) == (part == 0)))
                    by (nonlinear_arith);
            }
        }
        self.res == res && self.ts < ts && self.prompt > 0 && nothing
    }
}

fn holes_in(rows: &Vec<Bucket>, res: u64, ts: i64) -> (r: Vec<u64>)
    ensures
        r@ == holes_of(rows@, res, ts),
{
    let mut out: Vec<u64> = Vec::new();
    let mut i: usize = 0;
    while i < rows.len()
        invariant
            i <= rows@.len(),
            out@ == holes_of(rows@.take(i as int), res, ts),
        decreases rows@.len() - i,
    {
        assert(rows@.take(i + 1).drop_last() =~= rows@.take(i as int));
        if rows[i].takes_back(res, ts) {
            out.push(rows[i].prompt);
        }
        i += 1;
    }
    assert(rows@.take(rows@.len() as int) =~= rows@);
    out
}

/// Repairs the stored buckets, one impossible bucket after the other: its tokens are those of the
/// hours before, so they go back to the earlier buckets in which prompts were read and no cache hit
/// was recorded. Returns the buckets after it, and what was repaired.
pub fn repair_impossible_token_buckets(rows: Vec<Bucket>) -> (r: (Vec<Bucket>, Vec<Repaired>))
    requires
        all_wf(rows@),
    ensures
        r.0@ == repaired(rows@, rows@.len() as int).0,
        r.1@ == repaired(rows@, rows@.len() as int).1,
        forall|j: int| 0 <= j < r.0@.len() ==> !(#[trigger] r.0@[j]).impossible(),
        all_wf(r.0@),
{
    let ghost all = rows@;
    let mut t = rows;
    let mut out: Vec<Repaired> = Vec::new();
    let mut k: usize = 0;
    while k < t.len()
        invariant
            k <= t@.len() == all.len(),
            all_wf(all),
            all_wf(t@),
            t@ == repaired(all, k as int).0,
            out@ == repaired(all, k as int).1,
        decreases t@.len() - k,
    {
        let b = t[k];
        if b.is_impossible() {
            let ghost before = t@;
            proof {
                lemma_spread_back(before, k as int);
            }
            let tokens: u64 = match b.cached {
                Cached::Tokens(n) => n,
                Cached::Share(_, _) => 0,
            };
            let s = spread_over(tokens, &holes_in(&t, b.res, b.ts));
            let mut j: usize = 0;
            while j < t.len()
                invariant
                    j <= t@.len() == before.len(),
                    k < before.len(),
                    b == before[k as int],
                    s == spread_at(before, k as int),
                    forall|i: int| 0 <= i < j ==> #[trigger] t@[i] == spread_back(before, k as int)[i],
                    forall|i: int| j <= i < t@.len() ==> #[trigger] t@[i] == before[i],
                decreases t@.len() - j,
            {
                let mut x = t[j];
                if j == k {
                    x.cached = Cached::Tokens(0);
                    t.set(j, x);
                } else if x.takes_back(b.res, b.ts) {
                    x.cached = Cached::Share(s.part, s.whole);
                    t.set(j, x);
                }
                j += 1;
            }
            assert(t@ =~= spread_back(before, k as int));
            out.push(Repaired { res: b.res, ts: b.ts, tokens, placed: s.placed });
        }
        k += 1;
    }
    proof {
        lemma_repaired(all, all.len() as int, 0);
    }
    (t, out)
}

// ------------------------------------------------------------------- migrations

/// Which columns a database has.
#[derive(Clone, Copy, PartialEq, Eq, Structural, Debug)]
pub struct Columns {
    pub http_status: bool,
    pub valid: bool,
    pub unverified: bool,
    pub dedupe_key: bool,
}

/// The statement, where it is needed.
pub open spec fn where_needed(there: bool, statement: Seq<char>) -> Seq<Seq<char>> {
    if there {
        Seq::empty()
    } else {
        seq![statement]
    }
}

/// The statements that add what a database lacks.
pub fn migrate(have: Columns) -> (r: Vec<String>)
    ensures
        views(r@) == where_needed(
            have.http_status,
            "ALTER TABLE probes ADD COLUMN http_status INTEGER;"@,
        ) + where_needed(
            have.valid,
            "ALTER TABLE probes ADD COLUMN valid INTEGER NOT NULL DEFAULT 1; ALTER TABLE probes ADD COLUMN invalid_reason TEXT;"@,
        ) + where_needed(
            have.unverified,
            "ALTER TABLE probes ADD COLUMN unverified INTEGER NOT NULL DEFAULT 0;"@,
        ) + where_needed(have.dedupe_key, "ALTER TABLE incidents ADD COLUMN dedupe_key TEXT;"@),
{
    let mut out: Vec<String> = Vec::new();
    if !have.http_status {
        out.push("ALTER TABLE probes ADD COLUMN http_status INTEGER;".to_owned());
    }
    if !have.valid {
        out.push(
            "ALTER TABLE probes ADD COLUMN valid INTEGER NOT NULL DEFAULT 1; ALTER TABLE probes ADD COLUMN invalid_reason TEXT;".to_owned(),
        );
    }
    if !have.unverified {
        out.push("ALTER TABLE probes ADD COLUMN unverified INTEGER NOT NULL DEFAULT 0;".to_owned());
    }
    if !have.dedupe_key {
        out.push("ALTER TABLE incidents ADD COLUMN dedupe_key TEXT;".to_owned());
    }
    out
}

/// How long a run lasted that a collector left unfinished, when it is closed.
pub fn stale_duration(started_at: i64, now: i64) -> (r: i64)
    requires
        i64::MIN <= now - started_at <= i64::MAX,
    ensures
        r == (if now > started_at {
            now - started_at
        } else {
            0
        }),
{
    if now > started_at {
        now - started_at
    } else {
        0
    }
}

// ------------------------------------------------------------- what the rows mean

/// A list shows the incidents that were going on at some instant from `ts` on, each once, and no
/// other; of two the one that began later stands first, and of two that began together the one that
/// was stored later.
pub proof fn law_the_list_shows_what_went_on(rows: Seq<Incident>, ts: i64, list: Seq<usize>)
    requires
        rows.len() <= usize::MAX,
        is_listing(rows, rows.len() as int, ts as int, list),
        forall|x: int|
            0 <= x < rows.len() && (#[trigger] rows[x]).end is Some ==> rows[x].start
                <= rows[x].end->0,
    ensures
        list.no_duplicates(),
        forall|x: int|
            #![trigger rows[x]]
            0 <= x < rows.len() ==> (list.contains(x as usize) <==> exists|t: int|
                ts <= t && #[trigger] goes_on(rows[x], t)),
        forall|k: int| 0 <= k < list.len() ==> (#[trigger] list[k]) < rows.len(),
        forall|j: int, k: int|
            0 <= j < k < list.len() ==> {
                let a = rows[#[trigger] list[j] as int];
                let b = rows[#[trigger] list[k] as int];
                a.start >= b.start && (a.start == b.start ==> a.id >= b.id)
            },
{
    assert forall|x: int|
        #![trigger rows[x]]
        0 <= x < rows.len() implies (list.contains(x as usize) <==> exists|t: int|
        ts <= t && #[trigger] goes_on(rows[x], t)) by {
        let i = rows[x];
        if list.contains(x as usize) {
            let k = choose|k: int| 0 <= k < list.len() && list[k] == x as usize;
            assert(is_shown(rows[list[k] as int], ts as int));
            let t: int = if i.start >= ts as int {
                i.start as int
            } else {
                ts as int
            };
            assert(goes_on(i, t));
        }
        if exists|t: int| ts <= t && #[trigger] goes_on(i, t) {
            let t = choose|t: int| ts <= t && #[trigger] goes_on(i, t);
            assert(is_shown(rows[x], ts as int));
        }
    }
    assert forall|j: int, k: int| 0 <= j < k < list.len() implies {
        let a = rows[#[trigger] list[j] as int];
        let b = rows[#[trigger] list[k] as int];
        a.start >= b.start && (a.start == b.start ==> a.id >= b.id)
    } by {
        assert(!is_newer(rows[list[k] as int], rows[list[j] as int]));
    }
}

/// Whether an incident was going on at an instant.
pub open spec fn goes_on(i: Incident, t: int) -> bool {
    i.start <= t && (i.end is Some ==> t <= i.end->0)
}

/// A row more makes an event a stored one only where it is that event's row: with a key, where it has
/// the same key, whatever it says; without one, where kind, time and wording are all the same.
pub proof fn law_only_its_own_row_stores_an_event(
    rows: Seq<IncidentView>,
    row: IncidentView,
    kind: Seq<char>,
    ts: i64,
    detail: Seq<char>,
    key: Option<Seq<char>>,
)
    ensures
        !is_stored(Seq::empty(), kind, ts, detail, key),
        is_stored(rows, kind, ts, detail, key) ==> is_stored(rows.push(row), kind, ts, detail, key),
        !is_stored(rows, kind, ts, detail, key) ==> {
            &&& key is Some ==> (is_stored(rows.push(row), kind, ts, detail, key) <==> row.key
                == key)
            &&& key is None ==> (is_stored(rows.push(row), kind, ts, detail, key) <==> row.kind
                == kind && row.start == ts && row.detail == detail)
        },
{
    let after = rows.push(row);
    assert(after[rows.len() as int] == row);
    if is_stored(rows, kind, ts, detail, key) {
        let i = choose|i: int|
            0 <= i < rows.len() && is_event(#[trigger] rows[i], kind, ts, detail, key);
        assert(after[i] == rows[i]);
    } else if is_stored(after, kind, ts, detail, key) {
        let i = choose|i: int|
            0 <= i < after.len() && is_event(#[trigger] after[i], kind, ts, detail, key);
        if i < rows.len() {
            assert(after[i] == rows[i]);
        }
        assert(is_event(row, kind, ts, detail, key));
    } else {
        assert(!is_event(after[rows.len() as int], kind, ts, detail, key));
    }
}

/// What is done to a row is told by the rows before it. One that names no event is left. The first of
/// its event gets the key. A later one of an event that has a row goes into that row where the row is
/// older, and takes its place where it is younger, and only a wording that is newer is handed over.
/// What was done to the rows before it stays as it was.
pub proof fn law_a_row_is_merged_with_its_event(
    known: Seq<KeyedView>,
    rows: Seq<(int, Option<Seq<char>>)>,
    id: int,
    key: Option<Seq<char>>,
    p: int,
)
    requires
        keys_once(known),
    ensures
        ({
            let before = keyed_after(known, rows);
            let done = merges(known, rows.push((id, key)));
            let after = keyed_after(known, rows.push((id, key)));
            &&& done.len() == rows.len() + 1
            &&& done.take(rows.len() as int) == merges(known, rows)
            &&& key is None ==> done.last() == MergeView::Leave && after == before
            &&& key is Some && (forall|q: int|
                0 <= q < before.len() ==> (#[trigger] before[q]).key != key->0) ==> done.last()
                == MergeView::Key(key->0) && after == before.push(
                KeyedView { id, key: key->0, said: id },
            )
            &&& key is Some && 0 <= p < before.len() && before[p].key == key->0 ==> {
                &&& id >= before[p].id ==> done.last() == MergeView::MergeInto(
                    before[p].id,
                    id > before[p].said,
                ) && after[p].id == before[p].id
                &&& id < before[p].id ==> done.last() == MergeView::Replace(before[p].id, key->0)
                    && after[p].id == id
                &&& after.len() == before.len()
                &&& after[p].said >= id && after[p].said >= before[p].said && (after[p].said == id
                    || after[p].said == before[p].said)
                &&& forall|q: int|
                    0 <= q < before.len() && q != p ==> #[trigger] after[q] == before[q]
            }
        }),
{
    let before = keyed_after(known, rows);
    assert(rows.push((id, key)).drop_last() =~= rows);
    law_merge_leaves_one_row_per_event(known, rows);
    lemma_merges_len(known, rows);
    assert(merges(known, rows.push((id, key))).take(rows.len() as int) =~= merges(known, rows));
    if let Some(k) = key {
        lemma_place(before, k);
        if 0 <= p < before.len() && before[p].key == k {
            let found = place(before, k)->0;
            assert(place(before, k) is Some);
            assert(found == p);
        }
    }
}

proof fn lemma_merges_len(known: Seq<KeyedView>, rows: Seq<(int, Option<Seq<char>>)>)
    ensures
        merges(known, rows).len() == rows.len(),
    decreases rows.len(),
{
    if rows.len() > 0 {
        lemma_merges_len(known, rows.drop_last());
    }
}

/// Of the probes that were stored before probes were judged, only one that completed in time stays a
/// reading; one that is no reading already is not judged again. A late one says so, one that was
/// skipped was so for a busy engine, and any other keeps its own reason.
pub proof fn law_only_a_timely_probe_stays(valid: bool, status: Seq<char>, slow: bool)
    ensures
        valid ==> (legacy_fault(valid, status, slow) is None <==> status == "ok"@ && !slow),
        !valid ==> legacy_fault(valid, status, slow) is None,
        valid && status == "ok"@ && slow ==> legacy_fault(valid, status, slow) == Some(
            "slow_ttft"@,
        ),
        valid && status == "skipped_busy"@ ==> legacy_fault(valid, status, slow) == Some(
            "busy_before"@,
        ),
        valid && status != "ok"@ && status != "skipped_busy"@ ==> legacy_fault(valid, status, slow)
            == Some(status),
{
    reveal_strlit("ok");
    reveal_strlit("skipped_busy");
    assert("ok"@.len() < "skipped_busy"@.len());
}

/// The window of a probe holds the probe, and on either side a poll and a second more: where polls
/// are no further apart than they are said to be, there is one on either side. A poll is at least a
/// second.
pub proof fn law_a_window_reaches_to_the_polls_around(ts: int, wall_secs: int, poll_secs: int)
    ensures
        ({
            let w = probe_window(ts, wall_secs, poll_secs);
            &&& poll_secs >= 1 ==> ts - w.0 == poll_secs + 1 && w.1 - (ts + wall_secs) == poll_secs
                + 1
            &&& poll_secs < 1 ==> ts - w.0 == 2 && w.1 - (ts + wall_secs) == 2
        }),
{
}

/// A probe was disturbed where, from the first counter in its window to the last, the counter grew by
/// more than the probe's own tokens and the margin, and only there.
pub proof fn law_growth_beyond_its_own_is_a_disturbance(
    samples: Seq<Option<u64>>,
    i: int,
    j: int,
    tokens: u32,
    margin: u64,
)
    requires
        0 <= i <= j < samples.len(),
        samples[i] is Some,
        samples[j] is Some,
        forall|k: int| 0 <= k < i ==> (#[trigger] samples[k]) is None,
        forall|k: int| j < k < samples.len() ==> (#[trigger] samples[k]) is None,
    ensures
        first_counter(samples) == samples[i],
        last_counter(samples) == samples[j],
        was_contended(samples, tokens, margin) <==> samples[j]->0 > samples[i]->0 + tokens + margin,
{
    lemma_first_counter_is(samples, i);
    lemma_last_counter_is(samples, j);
}

/// Where no sample has a counter, nothing is known, and so no probe is called disturbed.
pub proof fn law_without_a_counter_nothing_is_known(
    samples: Seq<Option<u64>>,
    tokens: u32,
    margin: u64,
)
    requires
        forall|k: int| 0 <= k < samples.len() ==> (#[trigger] samples[k]) is None,
    ensures
        !was_contended(samples, tokens, margin),
{
    lemma_first_counter(samples);
}

proof fn lemma_first_counter_is(samples: Seq<Option<u64>>, i: int)
    requires
        0 <= i < samples.len(),
        samples[i] is Some,
        forall|k: int| 0 <= k < i ==> (#[trigger] samples[k]) is None,
    ensures
        first_counter(samples) == samples[i],
    decreases samples.len(),
{
    if i > 0 {
        let rest = samples.drop_first();
        assert(samples[0] is None);
        assert(rest[i - 1] == samples[i]);
        assert forall|k: int| 0 <= k < i - 1 implies (#[trigger] rest[k]) is None by {
            assert(rest[k] == samples[k + 1]);
        }
        lemma_first_counter_is(rest, i - 1);
    }
}

proof fn lemma_last_counter_is(samples: Seq<Option<u64>>, j: int)
    requires
        0 <= j < samples.len(),
        samples[j] is Some,
        forall|k: int| j < k < samples.len() ==> (#[trigger] samples[k]) is None,
    ensures
        last_counter(samples) == samples[j],
    decreases samples.len(),
{
    if j < samples.len() - 1 {
        let rest = samples.drop_last();
        assert(samples[samples.len() - 1] is None);
        assert(rest[j] == samples[j]);
        assert forall|k: int| j < k < rest.len() implies (#[trigger] rest[k]) is None by {
            assert(rest[k] == samples[k]);
        }
        lemma_last_counter_is(rest, j);
    }
}

/// The sentence about a disturbed probe says by how much the counter grew, how much of it was not the
/// probe's, and how wide and how full the window was.
pub proof fn law_a_disturbed_probe_says_why(grown: nat, tokens: u32, window: int, n: nat)
    requires
        grown >= tokens,
    ensures
        ({
            let said = contended_text(grown, tokens, window, n);
            &&& crate::text::holds(said, "grew by "@ + dec(grown) + ", "@)
            &&& crate::text::holds(said, ", "@ + dec_int(grown - tokens) + " more than the probe's own "@)
            &&& crate::text::holds(said, " more than the probe's own "@ + dec(tokens as nat) + " tokens"@)
            &&& crate::text::holds(said, dec_int(window) + "s window, "@ + dec(n) + " samples in it"@)
        }),
{
    let said = contended_text(grown, tokens, window, n);
    let a = "generation_tokens_total grew by "@;
    let b = ", "@;
    let c = " more than the probe's own "@;
    let d = " tokens: something else generated on this engine during the probe (found on repair from the stored samples, "@;
    let e = "s window, "@;
    let f = " samples in it - no finer than the poll cadence)"@;
    reveal_strlit("generation_tokens_total grew by ");
    reveal_strlit("grew by ");
    reveal_strlit(" tokens");
    reveal_strlit(" samples in it");
    reveal_strlit(" tokens: something else generated on this engine during the probe (found on repair from the stored samples, ");
    reveal_strlit(" samples in it - no finer than the poll cadence)");
    let g = dec(grown);
    let m = dec_int(grown - tokens);
    let t = dec(tokens as nat);
    let w = dec_int(window);
    let k = dec(n);
    let grew = "grew by "@;
    assert(a =~= a.take(24) + grew);
    let p1 = grew + g + b;
    let r1 = m + c + t + d + w + e + k + f;
    assert(said =~= a.take(24) + p1 + r1);
    crate::text::lemma_stands_between(a.take(24), p1, r1);
    let p2 = b + m + c;
    let r2 = t + d + w + e + k + f;
    assert(said =~= (a + g) + p2 + r2);
    crate::text::lemma_stands_between(a + g, p2, r2);
    let tok = " tokens"@;
    assert(d =~= tok + d.skip(7));
    let p3 = c + t + tok;
    let r3 = d.skip(7) + w + e + k + f;
    assert(said =~= (a + g + b + m) + p3 + r3);
    crate::text::lemma_stands_between(a + g + b + m, p3, r3);
    let inn = " samples in it"@;
    assert(f =~= inn + f.skip(14));
    let p4 = w + e + k + inn;
    assert(said =~= (a + g + b + m + c + t + d) + p4 + f.skip(14));
    crate::text::lemma_stands_between(a + g + b + m + c + t + d, p4, f.skip(14));
}

/// A bucket with a count is impossible where the count is beyond what hardware serves in its seconds
/// and beyond twice its prompt tokens; either alone does not make it so. A larger count never makes an
/// impossible bucket possible.
pub proof fn law_an_impossible_count_is_beyond_both(b: Bucket, n: u64, more: u64)
    requires
        b.cached == Cached::Tokens(n),
        more >= n,
    ensures
        b.impossible() <==> n > 500_000 * b.res && n > 2 * b.prompt,
        b.impossible() ==> (Bucket { cached: Cached::Tokens(more), ..b }).impossible(),
        n <= b.prompt ==> !b.impossible(),
{
}

/// The tokens of an impossible bucket go to the earlier buckets of its length that read prompts and
/// had nothing from the cache, and each such bucket is counted with its prompt tokens.
pub proof fn law_tokens_go_back_in_time(rows: Seq<Bucket>, b: Bucket, res: u64, ts: i64)
    requires
        b.wf(),
    ensures
        holes_of(Seq::empty(), res, ts) == Seq::<u64>::empty(),
        holes_of(rows.push(b), res, ts) == (if b.res == res && b.ts < ts && b.prompt > 0
            && b.tokens() == 0real {
            holes_of(rows, res, ts).push(b.prompt)
        } else {
            holes_of(rows, res, ts)
        }),
        room_of(holes_of(rows, res, ts).push(b.prompt)) == room_of(holes_of(rows, res, ts))
            + b.prompt,
{
    assert(rows.push(b).drop_last() =~= rows);
    assert(holes_of(rows, res, ts).push(b.prompt).drop_last() =~= holes_of(rows, res, ts));
    let (o, u) = (b.over() as real, b.under() as real);
    assert(u > 0real);
    assert(b.tokens() == 0real <==> b.over() == 0) by {
        assert((o / u == 0real) <==> (o == 0real)) by (nonlinear_arith)
            requires
                u > 0real,
        ;
    }
}

/// Too few readings tell nothing of a burst; with enough of them exactly those over the ceiling are
/// told, each once. A run that was left unfinished lasted until it was closed, and never for less than
/// no time. A list of incidents holds no more than is shown, and the newest of them.
pub proof fn law_a_burst_needs_enough_readings(
    over: Vec<bool>,
    r: Vec<usize>,
    started_at: i64,
    now: i64,
    lasted: i64,
)
    requires
        i64::MIN <= now - started_at <= i64::MAX,
        call_ensures(repair_burst_probes, (&over,), r),
        call_ensures(stale_duration, (started_at, now), lasted),
    ensures
        over@.len() < 8 ==> r@.len() == 0,
        over@.len() >= 8 ==> forall|i: int|
            0 <= i < over@.len() ==> (r@.contains(i as usize) <==> #[trigger] over@[i]),
        lasted >= 0,
        now >= started_at ==> lasted == now - started_at,
        now < started_at ==> lasted == 0,
{
}

/// What is listed of many incidents is the newest of them: every incident that reaches into the time
/// and is not listed began no later than every one that is.
pub proof fn law_only_the_oldest_are_left_out(rows: Vec<Incident>, ts: i64, r: Vec<usize>, x: int, k: int)
    requires
        rows@.len() <= usize::MAX,
        call_ensures(incidents_since, (&rows, ts), r),
        0 <= x < rows@.len(),
        is_shown(rows@[x], ts as int),
        !r@.contains(x as usize),
        0 <= k < r@.len(),
    ensures
        r@.len() == 500,
        rows@[x].start <= rows@[r@[k] as int].start,
{
    let all = choose|all: Seq<usize>| #[trigger]
        is_listing(rows@, rows@.len() as int, ts as int, all) && r@ == (if all.len() <= MAX_INCIDENTS {
            all
        } else {
            all.take(MAX_INCIDENTS as int)
        });
    assert(all.contains(x as usize));
    let p = choose|p: int| 0 <= p < all.len() && all[p] == x as usize;
    if all.len() > MAX_INCIDENTS {
        if p < MAX_INCIDENTS {
            assert(r@[p] == x as usize);
        }
        assert(all[k] == r@[k]);
        assert(!is_newer(rows@[all[p] as int], rows@[all[k] as int]));
    } else {
        assert(r@[p] == x as usize);
    }
}

} // verus!
