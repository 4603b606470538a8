//! The listeners: which request is answered by what, what is refused to other machines, and what a
//! refused or queued request is answered.

use crate::bench_run::{control, refusal_body, refusal_json};
use crate::db::Retention;
use crate::json::{
    lemma_plain_text, member_of, member_str, member_string, members_text, quoted, quoted_text,
    text_field, writes, Field,
};
use crate::query::reply_view;
use crate::text::{
    chars_of, dec_i64, dec_int, find_from, first_index, head, same, starts, starts_with, string_of,
    take, trim, trimmed, views,
};
use vstd::prelude::*;
use vstd::string::*;

verus! {

/// Where the history endpoints read from.
pub struct HistorySource {
    pub db_path: String,
    pub keep: Retention,
    /// the masked address that the collector's own probe has in the gateway's log
    pub probe_ip: Option<String>,
}

/// The same history request inside this many milliseconds shares one answer.
pub const CACHE_TTL_MS: u64 = 2000;

/// How many answers are kept.
pub const CACHE_MAX: usize = 64;

/// The poll loop counts as stuck when its newest sample is older than this.
pub const STALE_SECS: i64 = 30;

/// How long the message of a test alert may be.
pub const TEST_ALERT_MAX_CHARS: usize = 300;

/// How many test alerts may wait.
pub const TEST_ALERT_MAX_PENDING: usize = 5;

// --------------------------------------------------------------------- dispatch

/// The method of a request.
#[derive(Clone, Copy, PartialEq, Eq, Structural, Debug)]
pub enum Method {
    Get,
    Head,
    Post,
    Other,
}

/// What answers a request.
#[derive(Clone, Copy, PartialEq, Eq, Structural, Debug)]
pub enum Handler {
    TestAlert,
    Bench,
    Maintenance,
    History,
    Page,
    NotAllowed,
}

/// A URL up to its question mark.
pub open spec fn path_part(url: Seq<char>) -> Seq<char> {
    url.take(first_index(url, '?'))
}

/// A URL up to its question mark.
pub fn path_of(url: &str) -> (r: String)
    ensures
        r@ == path_part(url@),
{
    let v = chars_of(url);
    let i: usize = find_from(&v, '?', 0);
    assert(v@.skip(0) =~= v@);
    assert(v@.subrange(0, i as int) =~= v@.take(i as int));
    string_of(&v, 0, i)
}

/// Whether a path is one of the history endpoints.
pub open spec fn history_path(path: Seq<char>) -> bool {
    path == "/series"@ || path == "/hist"@ || path == "/gateway"@
}

/// Whether a path is one of the history endpoints.
pub fn is_history(path: &str) -> (r: bool)
    ensures
        r == history_path(path@),
{
    same(path, "/series") || same(path, "/hist") || same(path, "/gateway")
}

/// What answers a request.
pub open spec fn handler(method: Method, path: Seq<char>) -> Handler {
    let read = method == Method::Get || method == Method::Head;
    if path == "/test-alert"@ {
        Handler::TestAlert
    } else if method == Method::Post && starts(path, "/bench"@) {
        Handler::Bench
    } else if method == Method::Post && starts(path, "/maintenance"@) {
        Handler::Maintenance
    } else if read && history_path(path) {
        Handler::History
    } else if read {
        Handler::Page
    } else {
        Handler::NotAllowed
    }
}

/// What answers a request.
pub fn dispatch(method: Method, path: &str) -> (r: Handler)
    ensures
        r == handler(method, path@),
{
    let read = method == Method::Get || method == Method::Head;
    if same(path, "/test-alert") {
        Handler::TestAlert
    } else if method == Method::Post && starts_with(path, "/bench") {
        Handler::Bench
    } else if method == Method::Post && starts_with(path, "/maintenance") {
        Handler::Maintenance
    } else if read && is_history(path) {
        Handler::History
    } else if read {
        Handler::Page
    } else {
        Handler::NotAllowed
    }
}

// ------------------------------------------------------------------ kept answers

/// An answer that is kept, and when it was made.
pub struct Kept {
    pub url: String,
    pub at_ms: u64,
    pub answer: (u16, String),
}

/// An answer that is kept, as values.
pub open spec fn kept_view(k: Kept) -> (Seq<char>, (u64, (int, Seq<char>))) {
    (k.url@, (k.at_ms, reply_view(k.answer)))
}

/// The answers that are kept.
pub struct Cache {
    pub entries: Vec<Kept>,
}

/// What a list of kept answers says.
pub open spec fn cache_map(v: Seq<Kept>) -> Map<Seq<char>, (u64, (int, Seq<char>))>
    decreases v.len(),
{
    if v.len() == 0 {
        Map::empty()
    } else {
        let k = kept_view(v.last());
        cache_map(v.drop_last()).insert(k.0, k.1)
    }
}

impl View for Cache {
    type V = Map<Seq<char>, (u64, (int, Seq<char>))>;

    open spec fn view(&self) -> Map<Seq<char>, (u64, (int, Seq<char>))> {
        cache_map(self.entries@)
    }
}

proof fn lemma_cache_map(v: Seq<Kept>)
    ensures
        cache_map(v).dom().finite(),
        forall|u: Seq<char>| #[trigger]
            cache_map(v).dom().contains(u) <==> exists|i: int|
                0 <= i < v.len() && (#[trigger] v[i]).url@ == u,
    decreases v.len(),
{
    if v.len() > 0 {
        let rest = v.drop_last();
        lemma_cache_map(rest);
        assert forall|u: Seq<char>| #[trigger] cache_map(v).dom().contains(u) <==> exists|i: int|
            0 <= i < v.len() && (#[trigger] v[i]).url@ == u by {
            if cache_map(v).dom().contains(u) {
                if u == v.last().url@ {
                    assert(v[v.len() - 1].url@ == u);
                } else {
                    let i = choose|i: int| 0 <= i < rest.len() && (#[trigger] rest[i]).url@ == u;
                    assert(v[i].url@ == u);
                }
            }
            if exists|i: int| 0 <= i < v.len() && (#[trigger] v[i]).url@ == u {
                let i = choose|i: int| 0 <= i < v.len() && (#[trigger] v[i]).url@ == u;
                if i < rest.len() {
                    assert(rest[i].url@ == u);
                }
            }
        }
    }
}

proof fn lemma_distinct_len(v: Seq<Kept>)
    requires
        distinct(v),
    ensures
        cache_map(v).dom().len() == v.len(),
        cache_map(v).dom().finite(),
    decreases v.len(),
{
    lemma_cache_map(v);
    if v.len() > 0 {
        let rest = v.drop_last();
        assert forall|i: int, j: int| 0 <= i < j < rest.len() implies (#[trigger] rest[i]).url@ != (
        #[trigger] rest[j]).url@ by {
            assert(rest[i] == v[i] && rest[j] == v[j]);
        }
        lemma_distinct_len(rest);
        lemma_cache_map(rest);
        let u = v.last().url@;
        assert(!cache_map(rest).dom().contains(u)) by {
            if cache_map(rest).dom().contains(u) {
                let i = choose|i: int| 0 <= i < rest.len() && (#[trigger] rest[i]).url@ == u;
                assert(v[i].url@ == v[v.len() - 1].url@);
            }
        }
        assert(cache_map(v).dom() =~= cache_map(rest).dom().insert(u));
    } else {
        assert(cache_map(v).dom() =~= Set::<Seq<char>>::empty());
    }
}

/// Whether no two kept answers have one URL.
pub open spec fn distinct(v: Seq<Kept>) -> bool {
    forall|i: int, j: int|
        0 <= i < j < v.len() ==> (#[trigger] v[i]).url@ != (#[trigger] v[j]).url@
}

impl Cache {
    /// One answer for a URL, and no more answers than may be kept.
    pub open spec fn wf(&self) -> bool {
        distinct(self.entries@) && self.entries@.len() <= CACHE_MAX
    }

    /// Nothing is kept.
    pub fn new() -> (r: Cache)
        ensures
            r.wf(),
            r@ == Map::<Seq<char>, (u64, (int, Seq<char>))>::empty(),
    {
        Cache { entries: Vec::new() }
    }

    /// The kept answer to a URL, where it is young enough.
    pub fn get(&self, url: &str, now_ms: u64) -> (r: Option<(u16, String)>)
        requires
            self.wf(),
        ensures
            match r {
                Some(a) => self@.dom().contains(url@) && now_ms - self@[url@].0 < CACHE_TTL_MS
                    && reply_view(a) == self@[url@].1,
                None => !self@.dom().contains(url@) || now_ms - self@[url@].0 >= CACHE_TTL_MS,
            },
    {
        let mut i: usize = self.entries.len();
        let ghost all = self.entries@;
        assert(all.take(all.len() as int) =~= all);
        while i > 0
            invariant
                i <= self.entries@.len(),
                all == self.entries@,
                cache_map(all).dom().contains(url@) == cache_map(all.take(i as int)).dom().contains(
                    url@,
                ),
                cache_map(all).dom().contains(url@) ==> cache_map(all)[url@] == cache_map(
                    all.take(i as int),
                )[url@],
            decreases i,
        {
            assert(all.take(i as int).drop_last() =~= all.take(i - 1));
            let k = &self.entries[i - 1];
            if same(k.url.as_str(), url) {
                if now_ms as i128 - k.at_ms as i128 >= CACHE_TTL_MS as i128 {
                    return None;
                }
                return Some((k.answer.0, k.answer.1.clone()));
            }
            i -= 1;
        }
        None
    }

    /// Keeps an answer. Where no more may be kept, all that were are dropped first.
    pub fn put(&mut self, url: &str, now_ms: u64, answer: &(u16, String))
        requires
            old(self).wf(),
        ensures
            final(self).wf(),
            final(self)@ == (if old(self)@.dom().len() >= CACHE_MAX {
                Map::<Seq<char>, (u64, (int, Seq<char>))>::empty()
            } else {
                old(self)@
            }).insert(url@, (now_ms, reply_view(*answer))),
            final(self)@.dom().finite(),
            final(self)@.dom().len() <= CACHE_MAX,
    {
        proof {
            lemma_distinct_len(self.entries@);
        }
        if self.entries.len() >= CACHE_MAX {
            self.entries.clear();
        }
        let ghost before = self.entries@;
        let ghost e = (url@, (now_ms, reply_view(*answer)));
        let mut kept: Vec<Kept> = Vec::new();
        let mut i: usize = 0;
        while i < self.entries.len()
            invariant
                i <= self.entries@.len(),
                self.entries@ == before,
                distinct(before),
                kept@.len() <= i,
                distinct(kept@),
                forall|k: int|
                    0 <= k < kept@.len() ==> (#[trigger] kept@[k]).url@ != e.0 && exists|j: int|
                        0 <= j < i && (#[trigger] before[j]).url@ == kept@[k].url@,
                cache_map(kept@) == cache_map(before.take(i as int)).remove(e.0),
                e.0 == url@,
            decreases self.entries@.len() - i,
        {
            let k = &self.entries[i];
            proof {
                assert(before.take(i + 1).drop_last() =~= before.take(i as int));
                assert(before.take(i + 1).last() == *k);
                lemma_cache_map(before.take(i as int));
            }
            let ghost kept0 = kept@;
            if !same(k.url.as_str(), url) {
                let copy = Kept {
                    url: k.url.clone(),
                    at_ms: k.at_ms,
                    answer: (k.answer.0, k.answer.1.clone()),
                };
                kept.push(copy);
                proof {
                    assert(kept@.drop_last() =~= kept0);
                    assert(kept_view(copy) == kept_view(*k));
                    assert(cache_map(kept@) =~= cache_map(before.take(i + 1)).remove(e.0));
                    assert forall|x: int| 0 <= x < kept@.len() implies (#[trigger] kept@[x]).url@
                        != e.0 && exists|j: int|
                        0 <= j < i + 1 && (#[trigger] before[j]).url@ == kept@[x].url@ by {
                        if x < kept0.len() {
                            assert(kept@[x] == kept0[x]);
                            let j = choose|j: int|
                                0 <= j < i && (#[trigger] before[j]).url@ == kept0[x].url@;
                            assert(before[j].url@ == kept@[x].url@);
                        } else {
                            assert(before[i as int].url@ == kept@[x].url@);
                        }
                    }
                    assert forall|x: int, y: int| 0 <= x < y < kept@.len() implies (
                    #[trigger] kept@[x]).url@ != (#[trigger] kept@[y]).url@ by {
                        if y == kept0.len() {
                            let j = choose|j: int|
                                0 <= j < i && (#[trigger] before[j]).url@ == kept0[x].url@;
                            assert(before[j].url@ != before[i as int].url@);
                        }
                    }
                }
            } else {
                assert(cache_map(kept@) =~= cache_map(before.take(i + 1)).remove(e.0));
            }
            i += 1;
        }
        proof {
            assert(before.take(before.len() as int) =~= before);
        }
        let ghost kept0 = kept@;
        kept.push(
            Kept { url: url.to_owned(), at_ms: now_ms, answer: (answer.0, answer.1.clone()) },
        );
        proof {
            assert(kept@.drop_last() =~= kept0);
            assert(cache_map(kept@) =~= cache_map(before).insert(e.0, e.1));
            lemma_distinct_len(kept@);
        }
        self.entries = kept;
    }
}

// ------------------------------------------------------- requests that do something

/// A status, a content type and a body, as values.
pub open spec fn page_view(p: (u16, String, String)) -> (int, Seq<char>, Seq<char>) {
    (p.0 as int, p.1@, p.2@)
}

/// A text with a space for each control character.
pub open spec fn flattened(s: Seq<char>) -> Seq<char> {
    s.map_values(
        |c: char|
            if control(c) {
                ' '
            } else {
                c
            },
    )
}

/// The message of a test alert.
pub open spec fn alert_message(body: Seq<char>) -> Seq<char> {
    head(trimmed(flattened(body)), TEST_ALERT_MAX_CHARS as nat)
}

fn message_of(body: &str) -> (r: String)
    ensures
        r@ == alert_message(body@),
{
    let v = chars_of(body);
    let ghost f = |c: char|
        if control(c) {
            ' '
        } else {
            c
        };
    let mut out = String::new();
    let mut i: usize = 0;
    while i < v.len()
        invariant
            i <= v@.len(),
            f == (|c: char|
                if control(c) {
                    ' '
                } else {
                    c
                }),
            out@ == v@.take(i as int).map_values(f),
        decreases v@.len() - i,
    {
        let c = v[i];
        let d = if c <= '\u{1f}' || ('\u{7f}' <= c && c <= '\u{9f}') {
            ' '
        } else {
            c
        };
        out.push(d);
        assert(out@ =~= v@.take(i + 1).map_values(f));
        i += 1;
    }
    assert(v@.take(v@.len() as int) =~= v@);
    take(trim(out.as_str()).as_str(), TEST_ALERT_MAX_CHARS)
}

/// The answer to a test alert that is queued.
pub open spec fn queued_body(message: Seq<char>, rule: Seq<char>) -> Seq<char> {
    "{\"message\":"@ + quoted_text(message) + ",\"queued\":true,\"rule\":"@ + quoted_text(rule)
        + "}\n"@
}

/// What the answer to a queued test alert holds.
pub open spec fn queued_members(message: Seq<char>, rule: Seq<char>) -> Seq<(Seq<char>, Field)> {
    seq![
        ("message"@, Field::Text(message)),
        ("queued"@, Field::Flag(true)),
        ("rule"@, Field::Text(rule)),
    ]
}

/// The answer to a queued test alert is one object, and its message can be read from it.
pub proof fn lemma_queued_body(message: Seq<char>, rule: Seq<char>)
    ensures
        writes(queued_body(message, rule), queued_members(message, rule)),
        member_of(queued_members(message, rule), "message"@) == Some(Field::Text(message)),
{
    reveal_strlit("message");
    reveal_strlit("queued");
    reveal_strlit("rule");
    reveal_strlit("true");
    reveal_strlit("{\"message\":");
    reveal_strlit(",\"queued\":true,\"rule\":");
    reveal_strlit("}\n");
    lemma_plain_text("message"@);
    lemma_plain_text("queued"@);
    lemma_plain_text("rule"@);
    reveal_with_fuel(members_text, 4);
    reveal_with_fuel(member_of, 4);
    let ms = queued_members(message, rule);
    let two = ms.drop_last();
    assert(two =~= seq![ms[0], ms[1]]);
    assert(two.drop_last() =~= seq![ms[0]]);
    assert(queued_body(message, rule) =~= (seq!['{'] + members_text(ms) + seq!['}']).push('\n'));
}

/// What a request for a test alert is answered, and whether its message is queued.
pub open spec fn test_alert_reply(
    local: bool,
    is_post: bool,
    body: Seq<char>,
    pending: nat,
    rule: Seq<char>,
) -> (int, Seq<char>) {
    let msg = alert_message(body);
    if !local {
        (
            403,
            "{\"error\":\"test-alert is only accepted on 127.0.0.1, from this machine\"}\n"@,
        )
    } else if !is_post {
        (405, "{\"error\":\"POST the message as the request body\"}\n"@)
    } else if msg.len() == 0 {
        (400, "{\"error\":\"empty message\"}\n"@)
    } else if pending >= TEST_ALERT_MAX_PENDING {
        (429, "{\"error\":\"too many test alerts pending\"}\n"@)
    } else {
        (202, queued_body("[TEST] "@ + msg, rule))
    }
}

/// A request for a test alert: its message is queued for the poll loop where the request came over a
/// loopback listener from a loopback peer, is a `POST`, says something, and not too many wait.
pub fn test_alert(
    listener_is_loopback: bool,
    remote_is_loopback: bool,
    is_post: bool,
    body: &str,
    rule: &str,
    pending: &mut Vec<String>,
) -> (r: (u16, String, String))
    ensures
        ({
            let local = listener_is_loopback && remote_is_loopback;
            let reply = test_alert_reply(local, is_post, body@, old(pending)@.len(), rule@);
            &&& page_view(r) == (reply.0, "application/json"@, reply.1)
            &&& views(final(pending)@) == (if reply.0 == 202 {
                views(old(pending)@).push(alert_message(body@))
            } else {
                views(old(pending)@)
            })
        }),
{
    let json = "application/json".to_owned();
    if !listener_is_loopback || !remote_is_loopback {
        return (
            403,
            json,
            "{\"error\":\"test-alert is only accepted on 127.0.0.1, from this machine\"}\n".to_owned(),
        );
    }
    if !is_post {
        return (
            405,
            json,
            "{\"error\":\"POST the message as the request body\"}\n".to_owned(),
        );
    }
    let msg = message_of(body);
    if msg.as_str().is_empty() {
        return (400, json, "{\"error\":\"empty message\"}\n".to_owned());
    }
    if pending.len() >= TEST_ALERT_MAX_PENDING {
        return (429, json, "{\"error\":\"too many test alerts pending\"}\n".to_owned());
    }
    let mut shown = "[TEST] ".to_owned();
    shown.append(msg.as_str());
    let mut s = "{\"message\":".to_owned();
    s.append(quoted(shown.as_str()).as_str());
    s.append(",\"queued\":true,\"rule\":");
    s.append(quoted(rule).as_str());
    s.append("}\n");
    let ghost before = pending@;
    pending.push(msg);
    assert(views(pending@) =~= views(before).push(msg@));
    (202, json, s)
}

/// Nothing that is refused is queued, nothing is queued for another machine, and never more than may
/// wait: whatever is asked, by whom, and however often.
pub proof fn law_test_alerts_are_local_and_few(
    local: bool,
    is_post: bool,
    body: Seq<char>,
    pending: nat,
    rule: Seq<char>,
)
    requires
        pending <= TEST_ALERT_MAX_PENDING,
    ensures
        ({
            let code = test_alert_reply(local, is_post, body, pending, rule).0;
            let after = pending + (if code == 202 {
                1int
            } else {
                0
            });
            &&& after <= TEST_ALERT_MAX_PENDING
            &&& !local ==> code == 403
            &&& code == 202 <==> local && is_post && alert_message(body).len() > 0 && pending
                < TEST_ALERT_MAX_PENDING
            &&& alert_message(body).len() <= TEST_ALERT_MAX_CHARS
        }),
{
}

/// What a `POST` under `/bench` asks for.
pub enum BenchPost {
    Answer((u16, String)),
    /// a start: the text of the request
    Start(String),
    Cancel,
    /// a comparison of two files
    Compare(String, String),
}

/// What a `POST` under `/bench` asks for, as values.
pub enum BenchPostView {
    Answer((int, Seq<char>)),
    Start(Seq<char>),
    Cancel,
    Compare(Seq<char>, Seq<char>),
}

/// What a `POST` under `/bench` asks for, as values.
pub open spec fn bench_post_view(b: BenchPost) -> BenchPostView {
    match b {
        BenchPost::Answer(a) => BenchPostView::Answer(reply_view(a)),
        BenchPost::Start(t) => BenchPostView::Start(t@),
        BenchPost::Cancel => BenchPostView::Cancel,
        BenchPost::Compare(a, b) => BenchPostView::Compare(a@, b@),
    }
}

/// A body, or an empty object where it holds nothing.
pub open spec fn body_or_object(body: Seq<char>) -> Seq<char> {
    if trimmed(body).len() == 0 {
        "{}"@
    } else {
        body
    }
}

fn text_or_object(body: &str) -> (r: String)
    ensures
        r@ == body_or_object(body@),
{
    if trim(body).as_str().is_empty() {
        "{}".to_owned()
    } else {
        body.to_owned()
    }
}

/// A text, or nothing where there is none.
pub open spec fn text_or_nothing(s: Option<Seq<char>>) -> Seq<char> {
    match s {
        Some(t) => t,
        None => Seq::empty(),
    }
}

/// What a `POST` under `/bench` asks for. Other machines are refused.
pub open spec fn bench_asked(path: Seq<char>, local: bool, body: Seq<char>) -> BenchPostView {
    if !local {
        BenchPostView::Answer(
            (
                403int,
                refusal_body(
                    "a benchmark can only be started on the GPU box itself (127.0.0.1): run `lss bench` there, or over ssh"@,
                ),
            ),
        )
    } else if path == "/bench"@ {
        BenchPostView::Start(body_or_object(body))
    } else if path == "/bench/cancel"@ {
        BenchPostView::Cancel
    } else if path == "/bench/compare-accuracy"@ {
        BenchPostView::Compare(
            text_or_nothing(member_string(body, "a"@)),
            text_or_nothing(member_string(body, "b"@)),
        )
    } else {
        BenchPostView::Answer((404int, refusal_body("not found"@)))
    }
}

/// What a `POST` under `/bench` asks for. Other machines are refused.
pub fn bench_post(
    path: &str,
    listener_is_loopback: bool,
    remote_is_loopback: bool,
    body: &str,
) -> (r: BenchPost)
    ensures
        bench_post_view(r) == bench_asked(path@, listener_is_loopback && remote_is_loopback, body@),
        forall|ms: Seq<(Seq<char>, Field)>| #[trigger]
            writes(body@, ms) && listener_is_loopback && remote_is_loopback && path@
                == "/bench/compare-accuracy"@ ==> bench_post_view(r) == BenchPostView::Compare(
                text_or_nothing(text_field(member_of(ms, "a"@))),
                text_or_nothing(text_field(member_of(ms, "b"@))),
            ),
{
    if !listener_is_loopback || !remote_is_loopback {
        return BenchPost::Answer(
            (
                403,
                refusal_json(
                    "a benchmark can only be started on the GPU box itself (127.0.0.1): run `lss bench` there, or over ssh",
                ),
            ),
        );
    }
    proof {
        reveal_strlit("/bench");
        reveal_strlit("/bench/cancel");
        reveal_strlit("/bench/compare-accuracy");
        assert("/bench"@.len() < "/bench/cancel"@.len() < "/bench/compare-accuracy"@.len());
    }
    if same(path, "/bench") {
        BenchPost::Start(text_or_object(body))
    } else if same(path, "/bench/cancel") {
        BenchPost::Cancel
    } else if same(path, "/bench/compare-accuracy") {
        let a = match member_str(body, "a") {
            Some(t) => t,
            None => String::new(),
        };
        let b = match member_str(body, "b") {
            Some(t) => t,
            None => String::new(),
        };
        BenchPost::Compare(a, b)
    } else {
        BenchPost::Answer((404, refusal_json("not found")))
    }
}

/// The answer to a start whose text is not what is sent.
pub fn bench_not_json(e: &str) -> (r: (u16, String))
    ensures
        reply_view(r) == (
            400int,
            refusal_body("the request body is not the JSON `lss bench` sends: "@ + e@),
        ),
{
    let mut s = "the request body is not the JSON `lss bench` sends: ".to_owned();
    s.append(e);
    (400, refusal_json(s.as_str()))
}

/// What a `POST` under `/maintenance` asks for.
pub enum MaintenancePost {
    Answer((u16, String)),
    /// a start: the text of the request
    Start(String),
    Stop,
}

/// What a `POST` under `/maintenance` asks for, as values.
pub enum MaintenanceView {
    Answer((int, Seq<char>)),
    Start(Seq<char>),
    Stop,
}

/// What a `POST` under `/maintenance` asks for, as values.
pub open spec fn maintenance_view(m: MaintenancePost) -> MaintenanceView {
    match m {
        MaintenancePost::Answer(a) => MaintenanceView::Answer(reply_view(a)),
        MaintenancePost::Start(t) => MaintenanceView::Start(t@),
        MaintenancePost::Stop => MaintenanceView::Stop,
    }
}

/// A refusal of a maintenance's request as a body.
pub open spec fn no_maintenance_body(message: Seq<char>) -> Seq<char> {
    "{\"message\":"@ + quoted_text(message) + ",\"ok\":false}\n"@
}

fn no_maintenance(message: &str) -> (r: String)
    ensures
        r@ == no_maintenance_body(message@),
{
    let mut s = "{\"message\":".to_owned();
    s.append(quoted(message).as_str());
    s.append(",\"ok\":false}\n");
    s
}

/// What a `POST` under `/maintenance` asks for. Other machines are refused.
pub open spec fn maintenance_asked(path: Seq<char>, local: bool, body: Seq<char>) -> MaintenanceView {
    if !local {
        MaintenanceView::Answer(
            (
                403int,
                no_maintenance_body(
                    "maintenance mode can only be changed on the GPU box itself (127.0.0.1): run `lss maintenance` there, or over ssh"@,
                ),
            ),
        )
    } else if path == "/maintenance/start"@ {
        MaintenanceView::Start(body_or_object(body))
    } else if path == "/maintenance/stop"@ {
        MaintenanceView::Stop
    } else {
        MaintenanceView::Answer((404int, no_maintenance_body("not found"@)))
    }
}

/// What a `POST` under `/maintenance` asks for. Other machines are refused.
pub fn maintenance_post(
    path: &str,
    listener_is_loopback: bool,
    remote_is_loopback: bool,
    body: &str,
) -> (r: MaintenancePost)
    ensures
        maintenance_view(r) == maintenance_asked(
            path@,
            listener_is_loopback && remote_is_loopback,
            body@,
        ),
{
    if !listener_is_loopback || !remote_is_loopback {
        return MaintenancePost::Answer(
            (
                403,
                no_maintenance(
                    "maintenance mode can only be changed on the GPU box itself (127.0.0.1): run `lss maintenance` there, or over ssh",
                ),
            ),
        );
    }
    if same(path, "/maintenance/start") {
        MaintenancePost::Start(text_or_object(body))
    } else if same(path, "/maintenance/stop") {
        MaintenancePost::Stop
    } else {
        MaintenancePost::Answer((404, no_maintenance("not found")))
    }
}

/// The answer to a start whose text is not what is sent.
pub fn maintenance_not_json(e: &str) -> (r: (u16, String))
    ensures
        reply_view(r) == (
            400int,
            no_maintenance_body(
                "the request body is not the JSON `lss maintenance start` sends: "@ + e@,
            ),
        ),
{
    let mut s = "the request body is not the JSON `lss maintenance start` sends: ".to_owned();
    s.append(e);
    (400, no_maintenance(s.as_str()))
}

/// The answer to a stop where nothing is open.
pub fn nothing_to_stop() -> (r: (u16, String))
    ensures
        reply_view(r) == (
            200int,
            "{\"expires_at\":0,\"message\":\"no maintenance window is open\",\"ok\":false}\n"@,
        ),
{
    (
        200,
        "{\"expires_at\":0,\"message\":\"no maintenance window is open\",\"ok\":false}\n".to_owned(),
    )
}

/// No request from another machine changes anything: it is neither a start, nor a cancel, nor a
/// comparison, nor a stop, nor queued.
pub proof fn law_other_machines_change_nothing(path: Seq<char>, is_post: bool, body: Seq<char>, pending: nat, rule: Seq<char>)
    ensures
        bench_asked(path, false, body) matches BenchPostView::Answer(a) && a.0 == 403,
        maintenance_asked(path, false, body) matches MaintenanceView::Answer(a) && a.0 == 403,
        test_alert_reply(false, is_post, body, pending, rule).0 == 403,
{
}

// ------------------------------------------------------------------------ pages

/// What the poll loop has published.
pub struct Pages {
    pub status: String,
    pub metrics: String,
    pub rules: String,
    pub loadouts: String,
    pub tokens: String,
    pub advice: String,
    pub bench: String,
    pub last_sample_ts: i64,
}

/// What the front page says.
pub open spec fn front_page() -> Seq<char> {
    "lss-collector: /status /rules /loadouts /tokens /advice /bench (JSON, schema v1)  /series?metrics=a,b&range=6h&step=auto  /hist?metric=ttft&range=1h  /gateway?range=1h  /metrics (Prometheus)  /health  POST /test-alert /bench /bench/cancel /maintenance/start /maintenance/stop (127.0.0.1 only)\n"@
}

/// Whether the poll loop is alive: it has a sample, and a young one.
pub open spec fn healthy(last: int, now: int) -> bool {
    last > 0 && now - last <= STALE_SECS
}

/// What the health page says.
pub open spec fn health_body(last: int, now: int, version: Seq<char>) -> Seq<char> {
    "{\"ok\":"@ + (if healthy(last, now) {
        "true"@
    } else {
        "false"@
    }) + ",\"last_sample_age_s\":"@ + dec_int(
        if last > 0 {
            now - last
        } else {
            -1
        },
    ) + ",\"version\":\""@ + version + "\"}\n"@
}

/// The page of a path: a status, a content type and a body.
pub open spec fn page(path: Seq<char>, p: Pages, now: int, version: Seq<char>) -> (
    int,
    Seq<char>,
    Seq<char>,
) {
    let json = "application/json"@;
    if path == "/status"@ {
        (200, json, p.status@)
    } else if path == "/metrics"@ {
        (200, "text/plain; version=0.0.4"@, p.metrics@)
    } else if path == "/rules"@ {
        (200, json, p.rules@)
    } else if path == "/loadouts"@ {
        (200, json, p.loadouts@)
    } else if path == "/tokens"@ {
        (200, json, p.tokens@)
    } else if path == "/advice"@ {
        (200, json, p.advice@)
    } else if path == "/bench"@ {
        (200, json, p.bench@)
    } else if path == "/health"@ {
        (
            if healthy(p.last_sample_ts as int, now) {
                200
            } else {
                503
            },
            json,
            health_body(p.last_sample_ts as int, now, version),
        )
    } else if path == "/"@ {
        (200, "text/plain"@, front_page())
    } else {
        (404, "text/plain"@, "not found\n"@)
    }
}

/// The page of a URL.
pub fn route(url: &str, p: &Pages, now: i64, version: &str) -> (r: (u16, String, String))
    requires
        i64::MIN <= now - p.last_sample_ts <= i64::MAX,
    ensures
        page_view(r) == page(path_part(url@), *p, now as int, version@),
{
    let path = path_of(url);
    let path = path.as_str();
    let json = "application/json".to_owned();
    if same(path, "/status") {
        (200, json, p.status.clone())
    } else if same(path, "/metrics") {
        (200, "text/plain; version=0.0.4".to_owned(), p.metrics.clone())
    } else if same(path, "/rules") {
        (200, json, p.rules.clone())
    } else if same(path, "/loadouts") {
        (200, json, p.loadouts.clone())
    } else if same(path, "/tokens") {
        (200, json, p.tokens.clone())
    } else if same(path, "/advice") {
        (200, json, p.advice.clone())
    } else if same(path, "/bench") {
        (200, json, p.bench.clone())
    } else if same(path, "/health") {
        let age: i64 = now - p.last_sample_ts;
        let ok = p.last_sample_ts > 0 && age <= STALE_SECS;
        let mut s = "{\"ok\":".to_owned();
        if ok {
            s.append("true");
        } else {
            s.append("false");
        }
        s.append(",\"last_sample_age_s\":");
        let shown: i64 = if p.last_sample_ts > 0 {
            age
        } else {
            -1
        };
        s.append(dec_i64(shown).as_str());
        s.append(",\"version\":\"");
        s.append(version);
        s.append("\"}\n");
        (
            if ok {
                200
            } else {
                503
            },
            json,
            s,
        )
    } else if same(path, "/") {
        (
            200,
            "text/plain".to_owned(),
            "lss-collector: /status /rules /loadouts /tokens /advice /bench (JSON, schema v1)  /series?metrics=a,b&range=6h&step=auto  /hist?metric=ttft&range=1h  /gateway?range=1h  /metrics (Prometheus)  /health  POST /test-alert /bench /bench/cancel /maintenance/start /maintenance/stop (127.0.0.1 only)\n".to_owned(),
        )
    } else {
        (404, "text/plain".to_owned(), "not found\n".to_owned())
    }
}

/// A text with `'` for each `"`.
pub open spec fn single_quoted(s: Seq<char>) -> Seq<char> {
    s.map_values(
        |c: char|
            if c == '"' {
                '\''
            } else {
                c
            },
    )
}

/// The answer where the history's database cannot be opened.
pub fn history_unreadable(e: &str) -> (r: (u16, String))
    ensures
        reply_view(r) == (
            503int,
            "{\"v\":1,\"error\":\"database not readable: "@ + single_quoted(e@) + "\"}\n"@,
        ),
{
    let v = chars_of(e);
    let ghost f = |c: char|
        if c == '"' {
            '\''
        } else {
            c
        };
    let mut t = String::new();
    let mut i: usize = 0;
    while i < v.len()
        invariant
            i <= v@.len(),
            f == (|c: char|
                if c == '"' {
                    '\''
                } else {
                    c
                }),
            t@ == v@.take(i as int).map_values(f),
        decreases v@.len() - i,
    {
        let c = v[i];
        let d = if c == '"' {
            '\''
        } else {
            c
        };
        t.push(d);
        assert(t@ =~= v@.take(i + 1).map_values(f));
        i += 1;
    }
    assert(v@.take(v@.len() as int) =~= v@);
    let mut s = "{\"v\":1,\"error\":\"database not readable: ".to_owned();
    s.append(t.as_str());
    s.append("\"}\n");
    (503, s)
}

// ------------------------------------------------------- what a listener promises

/// Requests that change something are `POST`s to their own paths; what is read is read by `GET` or
/// `HEAD`, the history by its own handler; and whatever else comes is not allowed. A test alert has its
/// path to itself, so that it can say which method it wants.
pub proof fn law_each_request_has_its_handler(method: Method, path: Seq<char>)
    ensures
        handler(method, path) == Handler::TestAlert <==> path == "/test-alert"@,
        handler(method, path) == Handler::Bench <==> method == Method::Post && starts(
            path,
            "/bench"@,
        ),
        handler(method, path) == Handler::Maintenance <==> method == Method::Post && starts(
            path,
            "/maintenance"@,
        ),
        handler(method, path) == Handler::History <==> (method == Method::Get || method
            == Method::Head) && seq!["/series"@, "/hist"@, "/gateway"@].contains(path),
        handler(method, path) == Handler::Page <==> (method == Method::Get || method
            == Method::Head) && path != "/test-alert"@ && !seq![
            "/series"@,
            "/hist"@,
            "/gateway"@,
        ].contains(path),
        handler(method, path) == Handler::NotAllowed ==> method == Method::Other || method
            == Method::Post,
        method == Method::Other && path != "/test-alert"@ ==> handler(method, path)
            == Handler::NotAllowed,
{
    let three = seq!["/series"@, "/hist"@, "/gateway"@];
    assert(three[0] == "/series"@ && three[1] == "/hist"@ && three[2] == "/gateway"@);
    assert(three.contains(path) <==> history_path(path));
    reveal_strlit("/test-alert");
    reveal_strlit("/bench");
    reveal_strlit("/maintenance");
    reveal_strlit("/series");
    reveal_strlit("/hist");
    reveal_strlit("/gateway");
    assert("/test-alert"@.len() == 11 && "/series"@.len() == 7 && "/hist"@.len() == 5
        && "/gateway"@.len() == 8);
    assert("/test-alert"@[1] == 't' && "/bench"@[1] == 'b' && "/maintenance"@[1] == 'm');
    if starts(path, "/bench"@) {
        assert(path.take("/bench"@.len() as int)[1] == 'b');
    }
    if starts(path, "/maintenance"@) {
        assert(path.take("/maintenance"@.len() as int)[1] == 'm');
    }
}

/// What stands behind the question mark has no part in which page is asked for.
pub proof fn law_a_query_does_not_change_the_path(path: Seq<char>, query: Seq<char>)
    requires
        !path.contains('?'),
    ensures
        path_part(path) == path,
        path_part(path + seq!['?'] + query) == path,
{
    let url = path + seq!['?'] + query;
    assert forall|j: int| 0 <= j < path.len() implies path[j] != '?' by {
        assert(path.contains(path[j]));
    }
    crate::text::lemma_first_index_is(path, '?', path.len() as int);
    assert(path.take(path.len() as int) =~= path);
    crate::text::lemma_first_index_is(url, '?', path.len() as int);
    assert(url.take(path.len() as int) =~= path);
}

/// Every page shows what was published under its name, whatever was published besides.
pub proof fn law_a_page_shows_what_was_published(p: Pages, now: int, version: Seq<char>)
    ensures
        page("/status"@, p, now, version).2 == p.status@,
        page("/metrics"@, p, now, version).2 == p.metrics@,
        page("/rules"@, p, now, version).2 == p.rules@,
        page("/loadouts"@, p, now, version).2 == p.loadouts@,
        page("/tokens"@, p, now, version).2 == p.tokens@,
        page("/advice"@, p, now, version).2 == p.advice@,
        page("/bench"@, p, now, version).2 == p.bench@,
        page("/metrics"@, p, now, version).1 == "text/plain; version=0.0.4"@,
        forall|path: Seq<char>|
            seq!["/status"@, "/rules"@, "/loadouts"@, "/tokens"@, "/advice"@, "/bench"@].contains(
                path,
            ) ==> (#[trigger] page(path, p, now, version)).0 == 200 && page(
                path,
                p,
                now,
                version,
            ).1 == "application/json"@,
        page("/metrics"@, p, now, version).0 == 200,
        page("/"@, p, now, version).0 == 200,
{
    lemma_paths_differ();
    let listed = seq!["/status"@, "/rules"@, "/loadouts"@, "/tokens"@, "/advice"@, "/bench"@];
    assert forall|path: Seq<char>| listed.contains(path) implies (#[trigger] page(
        path,
        p,
        now,
        version,
    )).0 == 200 && page(path, p, now, version).1 == "application/json"@ by {
        let i = choose|i: int| 0 <= i < listed.len() && listed[i] == path;
        assert(listed[0] == "/status"@ && listed[1] == "/rules"@ && listed[2] == "/loadouts"@);
        assert(listed[3] == "/tokens"@ && listed[4] == "/advice"@ && listed[5] == "/bench"@);
    }
}

proof fn lemma_paths_differ()
    ensures
        "/status"@.len() == 7 && "/metrics"@.len() == 8 && "/rules"@.len() == 6 && "/loadouts"@.len()
            == 9 && "/tokens"@.len() == 7 && "/advice"@.len() == 7 && "/bench"@.len() == 6
            && "/health"@.len() == 7 && "/"@.len() == 1,
        "/status"@[1] == 's' && "/tokens"@[1] == 't' && "/advice"@[1] == 'a' && "/health"@[1] == 'h',
        "/rules"@[1] == 'r' && "/bench"@[1] == 'b',
{
    reveal_strlit("/status");
    reveal_strlit("/metrics");
    reveal_strlit("/rules");
    reveal_strlit("/loadouts");
    reveal_strlit("/tokens");
    reveal_strlit("/advice");
    reveal_strlit("/bench");
    reveal_strlit("/health");
    reveal_strlit("/");
}

/// The collector is well while it has a sample that is at most half a minute old, and the health page
/// says so by its status and in its text, with the sample's age. Without any sample it is not well,
/// whatever the clock says.
pub proof fn law_the_health_page_tells_a_stuck_loop(p: Pages, now: int, version: Seq<char>)
    ensures
        ({
            let said = page("/health"@, p, now, version);
            let age = now - p.last_sample_ts;
            &&& said.0 == 200 || said.0 == 503
            &&& said.0 == 200 <==> p.last_sample_ts > 0 && age <= 30
            &&& said.0 == 200 ==> crate::text::holds(said.2, "{\"ok\":true,"@)
            &&& said.0 == 503 ==> crate::text::holds(said.2, "{\"ok\":false,"@)
            &&& p.last_sample_ts > 0 ==> crate::text::holds(
                said.2,
                "\"last_sample_age_s\":"@ + dec_int(age) + ","@,
            )
            &&& p.last_sample_ts <= 0 ==> crate::text::holds(
                said.2,
                "\"last_sample_age_s\":"@ + dec_int(-1) + ","@,
            )
        }),
{
    lemma_paths_differ();
    let last = p.last_sample_ts as int;
    let said = page("/health"@, p, now, version);
    let ok = healthy(last, now);
    let word = if ok {
        "true"@
    } else {
        "false"@
    };
    let shown = dec_int(
        if last > 0 {
            now - last
        } else {
            -1
        },
    );
    reveal_strlit("{\"ok\":");
    reveal_strlit("{\"ok\":true,");
    reveal_strlit("{\"ok\":false,");
    reveal_strlit("true");
    reveal_strlit("false");
    reveal_strlit(",\"last_sample_age_s\":");
    reveal_strlit("\"last_sample_age_s\":");
    reveal_strlit(",\"version\":\"");
    reveal_strlit(",");
    let a = "{\"ok\":"@;
    let b = ",\"last_sample_age_s\":"@;
    let c = ",\"version\":\""@;
    let end = version + "\"}\n"@;
    assert(said.2 =~= a + word + b + shown + c + end);
    let first = a + word + ","@;
    let none = Seq::<char>::empty();
    assert(b =~= ","@ + b.skip(1));
    assert(said.2 =~= none + first + (b.skip(1) + shown + c + end));
    crate::text::lemma_stands_between(none, first, b.skip(1) + shown + c + end);
    if ok {
        assert(first =~= "{\"ok\":true,"@);
    } else {
        assert(first =~= "{\"ok\":false,"@);
    }
    let second = "\"last_sample_age_s\":"@ + shown + ","@;
    assert(b.skip(1) =~= "\"last_sample_age_s\":"@);
    assert(c =~= ","@ + c.skip(1));
    assert(said.2 =~= first + second + (c.skip(1) + end));
    crate::text::lemma_stands_between(first, second, c.skip(1) + end);
}

/// The message of a test alert is one line of at most so many characters, without white space before
/// it; a message that is such a line already is kept as it was sent.
pub proof fn law_a_test_alert_is_one_short_line(body: Seq<char>)
    ensures
        alert_message(body).len() <= 300,
        forall|i: int|
            0 <= i < alert_message(body).len() ==> !control(#[trigger] alert_message(body)[i]),
        body.len() <= 300 && trimmed(body) == body && (forall|i: int|
            0 <= i < body.len() ==> !control(#[trigger] body[i])) ==> alert_message(body) == body,
{
    let flat = flattened(body);
    assert forall|i: int| 0 <= i < flat.len() implies !control(#[trigger] flat[i]) by {}
    crate::text::law_trimming_takes_only_the_ends(flat);
    let (a, b) = crate::text::trimmed_ends(flat);
    assert forall|i: int| 0 <= i < alert_message(body).len() implies !control(
        #[trigger] alert_message(body)[i],
    ) by {
        assert(alert_message(body)[i] == flat[a.len() + i]);
    }
    if forall|i: int| 0 <= i < body.len() ==> !control(#[trigger] body[i]) {
        assert(flat =~= body);
    }
}

/// From this machine each path asks for its own: a start carries the text as it was sent, and an empty
/// one stands for an object without members. Other paths ask for nothing.
pub proof fn law_a_bench_path_asks_for_its_own(path: Seq<char>, body: Seq<char>)
    ensures
        bench_asked(path, true, body) is Start <==> path == "/bench"@,
        bench_asked(path, true, body) is Cancel <==> path == "/bench/cancel"@,
        bench_asked(path, true, body) is Compare <==> path == "/bench/compare-accuracy"@,
        path == "/bench"@ && trimmed(body).len() > 0 ==> bench_asked(path, true, body)
            == BenchPostView::Start(body),
        path == "/bench"@ && trimmed(body).len() == 0 ==> bench_asked(path, true, body)
            == BenchPostView::Start("{}"@),
        bench_asked(path, true, body) matches BenchPostView::Answer(a) ==> a.0 == 404,
        bench_asked(path, true, body) matches BenchPostView::Compare(a, b) ==> {
            &&& member_string(body, "a"@) is Some ==> a == member_string(body, "a"@)->0
            &&& member_string(body, "b"@) is Some ==> b == member_string(body, "b"@)->0
            &&& member_string(body, "a"@) is None ==> a.len() == 0
            &&& member_string(body, "b"@) is None ==> b.len() == 0
        },
{
    reveal_strlit("/bench");
    reveal_strlit("/bench/cancel");
    reveal_strlit("/bench/compare-accuracy");
    assert("/bench"@.len() < "/bench/cancel"@.len() < "/bench/compare-accuracy"@.len());
}

/// From this machine a start opens a maintenance, with the text as it was sent, and a stop closes it;
/// other paths do neither.
pub proof fn law_a_maintenance_path_asks_for_its_own(path: Seq<char>, body: Seq<char>)
    ensures
        maintenance_asked(path, true, body) is Start <==> path == "/maintenance/start"@,
        maintenance_asked(path, true, body) is Stop <==> path == "/maintenance/stop"@,
        path == "/maintenance/start"@ && trimmed(body).len() > 0 ==> maintenance_asked(
            path,
            true,
            body,
        ) == MaintenanceView::Start(body),
        path == "/maintenance/start"@ && trimmed(body).len() == 0 ==> maintenance_asked(
            path,
            true,
            body,
        ) == MaintenanceView::Start("{}"@),
        maintenance_asked(path, true, body) matches MaintenanceView::Answer(a) ==> a.0 == 404,
{
    reveal_strlit("/maintenance/start");
    reveal_strlit("/maintenance/stop");
    assert("/maintenance/stop"@.len() < "/maintenance/start"@.len());
}

/// A test alert that is queued is answered with its message, marked as a test; each refusal has its own
/// status, and the first reason there is decides.
pub proof fn law_a_refused_test_alert_says_why(
    local: bool,
    is_post: bool,
    body: Seq<char>,
    pending: nat,
    rule: Seq<char>,
)
    ensures
        ({
            let reply = test_alert_reply(local, is_post, body, pending, rule);
            &&& reply.0 == 403 <==> !local
            &&& reply.0 == 405 <==> local && !is_post
            &&& reply.0 == 400 <==> local && is_post && alert_message(body).len() == 0
            &&& reply.0 == 429 <==> local && is_post && alert_message(body).len() > 0 && pending >= 5
            &&& reply.0 == 202 ==> crate::text::holds(
                reply.1,
                "{\"message\":"@ + quoted_text("[TEST] "@ + alert_message(body)) + ",\"queued\":true"@,
            ) && crate::text::holds(reply.1, "\"rule\":"@ + quoted_text(rule))
        }),
{
    let reply = test_alert_reply(local, is_post, body, pending, rule);
    if reply.0 == 202 {
        let m = quoted_text("[TEST] "@ + alert_message(body));
        let r = quoted_text(rule);
        reveal_strlit(",\"queued\":true,\"rule\":");
        reveal_strlit(",\"queued\":true");
        reveal_strlit("\"rule\":");
        let mid = ",\"queued\":true,\"rule\":"@;
        let none = Seq::<char>::empty();
        assert(mid =~= ",\"queued\":true"@ + mid.skip(14));
        let p = "{\"message\":"@ + m + ",\"queued\":true"@;
        assert(reply.1 =~= none + p + (mid.skip(14) + r + "}\n"@));
        crate::text::lemma_stands_between(none, p, mid.skip(14) + r + "}\n"@);
        assert(mid.skip(15) =~= "\"rule\":"@);
        assert(mid =~= mid.take(15) + "\"rule\":"@);
        let q = "\"rule\":"@ + r;
        assert(reply.1 =~= ("{\"message\":"@ + m + mid.take(15)) + q + "}\n"@);
        crate::text::lemma_stands_between("{\"message\":"@ + m + mid.take(15), q, "}\n"@);
    }
}

/// An error that is quoted in an answer cannot end the text it stands in: it holds no double quote,
/// and nothing else of it is changed.
pub proof fn law_a_quoted_error_stays_inside(e: Seq<char>)
    ensures
        single_quoted(e).len() == e.len(),
        !single_quoted(e).contains('"'),
        forall|i: int|
            0 <= i < e.len() && e[i] != '"' ==> #[trigger] single_quoted(e)[i] == e[i],
{
}

} // verus!
