//! The read side of the history API: what a request asks for, and which stored rows answer it.

use crate::cycle::{bucket_start, floor_to, later, later_of};
use crate::db::Retention;
use crate::json::{quoted, quoted_text};
use crate::text::{
    chars_of, dec, dec_u64, find_from, find_text, first_at, first_index, joined, lemma_first_index,
    lemma_text_le_total, lemma_text_le_trans, not_behind, opt_view, parse_int, parse_u64, same,
    split, split_on, string_of, text_le, trim, trimmed, views,
};
use vstd::prelude::*;
use vstd::string::*;
use vstd::utf8::{
    char_is_scalar, char_u32_cast, decode_utf8, encode_scalar, encode_utf8,
    encode_utf8_decode_utf8, encode_utf8_valid_utf8, valid_utf8,
};

verus! {

/// How many metrics one request may ask for.
pub const MAX_TOKENS: usize = 128;

/// The range of a request that names none, in seconds.
pub const DEFAULT_RANGE: i64 = 3600;

// ------------------------------------------------------------------- parameters

/// What `String::from_utf8_lossy` makes of bytes: the text, with a replacement character for what
/// is no UTF-8.
pub uninterp spec fn lossy_text(bytes: Seq<u8>) -> Seq<char>;

/// `String::from_utf8_lossy`: bytes that are UTF-8 give their text as it is; of the rest only that
/// the result rests on the bytes alone.
#[verifier::external_body]
pub(crate) fn lossy(bytes: &Vec<u8>) -> (r: String)
    ensures
        r@ == lossy_text(bytes@),
        valid_utf8(bytes@) ==> r@ == decode_utf8(bytes@),
{
    String::from_utf8_lossy(bytes).into_owned()
}

/// The value of a hexadecimal digit.
pub open spec fn hex_value(b: u8) -> Option<int> {
    if 48 <= b <= 57 {
        Some(b - 48)
    } else if 65 <= b <= 70 {
        Some(b - 55)
    } else if 97 <= b <= 102 {
        Some(b - 87)
    } else {
        None
    }
}

/// The byte that two characters write in hexadecimal.
pub open spec fn hex_pair(a: u8, b: u8) -> Option<int> {
    match (hex_value(a), hex_value(b)) {
        (Some(x), Some(y)) => Some(16 * x + y),
        _ => None,
    }
}

/// Bytes with each `%XX` as the byte it writes and each `+` as a space. A `%` that writes no byte
/// stays.
pub open spec fn unescaped(b: Seq<u8>) -> Seq<u8>
    decreases b.len(),
{
    if b.len() == 0 {
        Seq::empty()
    } else if b[0] == 37 && b.len() > 2 && hex_pair(b[1], b[2]) is Some {
        seq![hex_pair(b[1], b[2])->0 as u8] + unescaped(b.skip(3))
    } else if b[0] == 43 {
        seq![32u8] + unescaped(b.skip(1))
    } else {
        seq![b[0]] + unescaped(b.skip(1))
    }
}

/// A text with its escapes undone: the text of the bytes, where they are UTF-8.
pub open spec fn decoded(s: Seq<char>) -> Seq<char> {
    let b = unescaped(encode_utf8(s));
    if valid_utf8(b) {
        decode_utf8(b)
    } else {
        lossy_text(b)
    }
}

fn hex_digit(b: u8) -> (r: Option<u8>)
    ensures
        (match r {
            Some(x) => Some(x as int),
            None => None::<int>,
        }) == hex_value(b),
        r is Some ==> r->0 < 16,
{
    if 48 <= b && b <= 57 {
        Some(b - 48)
    } else if 65 <= b && b <= 70 {
        Some(b - 55)
    } else if 97 <= b && b <= 102 {
        Some(b - 87)
    } else {
        None
    }
}

fn hex_byte(a: u8, b: u8) -> (r: Option<u8>)
    ensures
        (match r {
            Some(x) => Some(x as int),
            None => None::<int>,
        }) == hex_pair(a, b),
{
    match hex_digit(b) {
        None => None,
        Some(y) => match hex_digit(a) {
            Some(x) => Some(16 * x + y),
            None => None,
        },
    }
}

/// A text with its escapes undone: `%XX` is the byte it writes, `+` a space. A text without escapes
/// is its own decoding.
pub fn percent_decode(s: &str) -> (r: String)
    ensures
        r@ == decoded(s@),
        is_plain(s@) ==> r@ == s@,
{
    let b = s.as_bytes();
    let mut out: Vec<u8> = Vec::new();
    let mut i: usize = 0;
    assert(b@.skip(0) =~= b@);
    assert(out@ + unescaped(b@) =~= unescaped(b@));
    while i < b.len()
        invariant
            i <= b@.len(),
            b@ == encode_utf8(s@),
            out@ + unescaped(b@.skip(i as int)) == unescaped(b@),
        decreases b@.len() - i,
    {
        let ghost rest = b@.skip(i as int);
        let ghost before = out@;
        assert(rest[0] == b@[i as int]);
        let mut step: usize = 1;
        if b[i] == 37 && b.len() - i > 2 {
            assert(rest[1] == b@[i + 1] && rest[2] == b@[i + 2]);
            match hex_byte(b[i + 1], b[i + 2]) {
                Some(x) => {
                    out.push(x);
                    step = 3;
                },
                None => {
                    out.push(37);
                },
            }
        } else if b[i] == 43 {
            out.push(32);
        } else {
            out.push(b[i]);
        }
        proof {
            assert(rest.skip(step as int) =~= b@.skip(i + step));
            assert(out@ =~= before.push(out@.last()));
            assert(before + (seq![out@.last()] + unescaped(b@.skip(i + step))) =~= out@ + unescaped(
                b@.skip(i + step),
            ));
        }
        i += step;
    }
    assert(b@.skip(i as int) =~= Seq::<u8>::empty());
    assert(out@ + Seq::<u8>::empty() =~= out@);
    proof {
        if is_plain(s@) {
            law_plain_text_is_unchanged(s@);
        }
    }
    lossy(&out)
}

/// Whether a text holds no escape: neither `%` nor `+`.
pub open spec fn is_plain(s: Seq<char>) -> bool {
    forall|i: int| 0 <= i < s.len() ==> #[trigger] s[i] != '%' && s[i] != '+'
}

spec fn is_plain_bytes(b: Seq<u8>) -> bool {
    forall|i: int| 0 <= i < b.len() ==> #[trigger] b[i] != 37 && b[i] != 43
}

proof fn lemma_plain_bytes(b: Seq<u8>)
    requires
        is_plain_bytes(b),
    ensures
        unescaped(b) == b,
    decreases b.len(),
{
    if b.len() > 0 {
        let rest = b.skip(1);
        assert forall|i: int| 0 <= i < rest.len() implies #[trigger] rest[i] != 37 && rest[i] != 43 by {
            assert(rest[i] == b[i + 1]);
        }
        lemma_plain_bytes(rest);
        assert(b =~= seq![b[0]] + rest);
    }
}

// The bytes of a character that is not in ASCII are none of ASCII.
proof fn lemma_plain_scalar(c: u32)
    requires
        c != 37 && c != 43,
    ensures
        is_plain_bytes(encode_scalar(c)),
{
    if c <= 0x7f {
        assert((c & 0x7f) as u8 == c) by (bit_vector)
            requires
                c <= 0x7f,
        ;
    } else {
        assert(0xC0 | ((c >> 6) & 0x1F) as u8 >= 0x80u8) by (bit_vector);
        assert(0xE0 | ((c >> 12) & 0x0F) as u8 >= 0x80u8) by (bit_vector);
        assert(0xF0 | ((c >> 18) & 0x7) as u8 >= 0x80u8) by (bit_vector);
        assert(0x80 | (c & 0x3F) as u8 >= 0x80u8) by (bit_vector);
        assert(0x80 | ((c >> 6) & 0x3F) as u8 >= 0x80u8) by (bit_vector);
        assert(0x80 | ((c >> 12) & 0x3F) as u8 >= 0x80u8) by (bit_vector);
    }
}

proof fn lemma_plain_encoding(s: Seq<char>)
    requires
        is_plain(s),
    ensures
        is_plain_bytes(encode_utf8(s)),
    decreases s.len(),
{
    if s.len() > 0 {
        let rest = s.drop_first();
        assert forall|i: int| 0 <= i < rest.len() implies #[trigger] rest[i] != '%' && rest[i] != '+' by {
            assert(rest[i] == s[i + 1]);
        }
        lemma_plain_encoding(rest);
        assert(s[0] != '%' && s[0] != '+');
        let c = s[0];
        char_is_scalar(c);
        char_u32_cast(c, c as u32);
        char_u32_cast('%', 37);
        char_u32_cast('+', 43);
        lemma_plain_scalar(c as u32);
        let head = encode_scalar(s[0] as u32);
        let tail = encode_utf8(rest);
        assert forall|i: int| 0 <= i < (head + tail).len() implies #[trigger] (head + tail)[i] != 37
            && (head + tail)[i] != 43 by {
            if i < head.len() {
                assert((head + tail)[i] == head[i]);
            } else {
                assert((head + tail)[i] == tail[i - head.len()]);
            }
        }
    }
}

/// Text without escapes is its own decoding.
pub proof fn law_plain_text_is_unchanged(s: Seq<char>)
    requires
        is_plain(s),
    ensures
        decoded(s) == s,
{
    broadcast use {encode_utf8_decode_utf8, encode_utf8_valid_utf8};

    lemma_plain_encoding(s);
    lemma_plain_bytes(encode_utf8(s));
}

/// The parameters of a request.
pub struct Params {
    pub entries: Vec<(String, String)>,
}

/// Name and value pairs as values.
pub open spec fn pairs_view(v: Seq<(String, String)>) -> Seq<(Seq<char>, Seq<char>)> {
    v.map_values(|e: (String, String)| (e.0@, e.1@))
}

/// What a list of pairs says: the last pair of a name counts.
pub open spec fn map_of(v: Seq<(Seq<char>, Seq<char>)>) -> Map<Seq<char>, Seq<char>>
    decreases v.len(),
{
    if v.len() == 0 {
        Map::empty()
    } else {
        map_of(v.drop_last()).insert(v.last().0, v.last().1)
    }
}

impl View for Params {
    type V = Map<Seq<char>, Seq<char>>;

    open spec fn view(&self) -> Map<Seq<char>, Seq<char>> {
        map_of(pairs_view(self.entries@))
    }
}

impl Params {
    /// The value of the parameter `name`.
    pub fn get(&self, name: &str) -> (r: Option<String>)
        ensures
            match r {
                Some(v) => self@.dom().contains(name@) && self@[name@] == v@,
                None => !self@.dom().contains(name@),
            },
    {
        let mut i: usize = self.entries.len();
        let ghost all = pairs_view(self.entries@);
        assert(all.take(all.len() as int) =~= all);
        while i > 0
            invariant
                i <= self.entries@.len(),
                all == pairs_view(self.entries@),
                map_of(all).dom().contains(name@) == map_of(all.take(i as int)).dom().contains(name@),
                map_of(all).dom().contains(name@) ==> map_of(all)[name@] == map_of(
                    all.take(i as int),
                )[name@],
            decreases i,
        {
            assert(all.take(i as int).drop_last() =~= all.take(i - 1));
            assert(all.take(i as int).last() == (self.entries@[i - 1].0@, self.entries@[i - 1].1@));
            if same(self.entries[i - 1].0.as_str(), name) {
                return Some(self.entries[i - 1].1.clone());
            }
            i -= 1;
        }
        None
    }

    /// Whether there is no parameter at all.
    pub fn is_empty(&self) -> (r: bool)
        ensures
            r == (self@ == Map::<Seq<char>, Seq<char>>::empty()),
    {
        proof {
            let all = pairs_view(self.entries@);
            if all.len() > 0 {
                assert(map_of(all).dom().contains(all.last().0));
            }
        }
        self.entries.len() == 0
    }
}

/// What stands behind the first question mark of a URL.
pub open spec fn query_of(url: Seq<char>) -> Seq<char> {
    let i = first_index(url, '?');
    if i < url.len() {
        url.skip(i + 1)
    } else {
        Seq::empty()
    }
}

/// The name of a parameter, still escaped.
pub open spec fn raw_name(pair: Seq<char>) -> Seq<char> {
    pair.take(first_index(pair, '='))
}

/// The value of a parameter, still escaped.
pub open spec fn raw_value(pair: Seq<char>) -> Seq<char> {
    let i = first_index(pair, '=');
    if i < pair.len() {
        pair.skip(i + 1)
    } else {
        Seq::empty()
    }
}

/// The pairs of a list of `name=value` texts. One without a name is left out.
pub open spec fn pairs_of(parts: Seq<Seq<char>>) -> Seq<(Seq<char>, Seq<char>)>
    decreases parts.len(),
{
    if parts.len() == 0 {
        Seq::empty()
    } else {
        let before = pairs_of(parts.drop_last());
        if raw_name(parts.last()).len() == 0 {
            before
        } else {
            before.push((decoded(raw_name(parts.last())), decoded(raw_value(parts.last()))))
        }
    }
}

proof fn lemma_later_pairs(parts: Seq<Seq<char>>, k: int, n: int)
    requires
        0 <= k < n <= parts.len(),
        raw_name(parts[k]).len() > 0,
        forall|j: int|
            k < j < n && raw_name(#[trigger] parts[j]).len() > 0 ==> decoded(raw_name(parts[j]))
                != decoded(raw_name(parts[k])),
    ensures
        map_of(pairs_of(parts.take(n))).dom().contains(decoded(raw_name(parts[k]))),
        map_of(pairs_of(parts.take(n)))[decoded(raw_name(parts[k]))] == decoded(raw_value(parts[k])),
    decreases n,
{
    let taken = parts.take(n);
    assert(taken.drop_last() =~= parts.take(n - 1));
    assert(taken.last() == parts[n - 1]);
    if k < n - 1 {
        lemma_later_pairs(parts, k, n - 1);
    }
    if raw_name(taken.last()).len() > 0 {
        let before = pairs_of(taken.drop_last());
        assert(pairs_of(taken).drop_last() =~= before);
    }
}

/// A parameter that no later one of its name follows has its own value, with its escapes undone; one
/// without escapes is read as it was written.
pub proof fn law_a_parameter_has_its_value(url: Seq<char>, k: int)
    requires
        0 <= k < split_on(query_of(url), '&').len(),
        raw_name(split_on(query_of(url), '&')[k]).len() > 0,
        forall|j: int|
            k < j < split_on(query_of(url), '&').len() && raw_name(
                #[trigger] split_on(query_of(url), '&')[j],
            ).len() > 0 ==> decoded(raw_name(split_on(query_of(url), '&')[j])) != decoded(
                raw_name(split_on(query_of(url), '&')[k]),
            ),
    ensures
        ({
            let params = map_of(pairs_of(split_on(query_of(url), '&')));
            let name = raw_name(split_on(query_of(url), '&')[k]);
            let value = raw_value(split_on(query_of(url), '&')[k]);
            &&& params.dom().contains(decoded(name)) && params[decoded(name)] == decoded(value)
            &&& is_plain(name) ==> decoded(name) == name
            &&& is_plain(value) ==> decoded(value) == value
        }),
{
    let parts = split_on(query_of(url), '&');
    lemma_later_pairs(parts, k, parts.len() as int);
    assert(parts.take(parts.len() as int) =~= parts);
    if is_plain(raw_name(parts[k])) {
        law_plain_text_is_unchanged(raw_name(parts[k]));
    }
    if is_plain(raw_value(parts[k])) {
        law_plain_text_is_unchanged(raw_value(parts[k]));
    }
}

/// `a=1&b=x%2Cy` behind the question mark of a URL, as names and values. The last of two values of
/// one name counts. What has no escapes is read as it was written.
pub fn parse_query(url: &str) -> (r: Params)
    ensures
        r@ == map_of(pairs_of(split_on(query_of(url@), '&'))),
        forall|s: Seq<char>| is_plain(s) ==> #[trigger] decoded(s) == s,
{
    proof {
        assert forall|s: Seq<char>| is_plain(s) implies #[trigger] decoded(s) == s by {
            law_plain_text_is_unchanged(s);
        }
    }
    let v = chars_of(url);
    let i: usize = find_from(&v, '?', 0);
    assert(v@.skip(0) =~= v@);
    let query = if i < v.len() {
        let q = string_of(&v, i + 1, v.len());
        assert(q@ =~= url@.skip(i + 1));
        q
    } else {
        String::new()
    };
    let parts = split(query.as_str(), '&');
    let ghost all = views(parts@);
    let mut entries: Vec<(String, String)> = Vec::new();
    let mut k: usize = 0;
    assert(pairs_view(entries@) =~= pairs_of(all.take(0)));
    while k < parts.len()
        invariant
            k <= parts@.len(),
            all == views(parts@),
            pairs_view(entries@) == pairs_of(all.take(k as int)),
        decreases parts@.len() - k,
    {
        proof {
            assert(all.take(k + 1).drop_last() =~= all.take(k as int));
            assert(all.take(k + 1).last() == parts@[k as int]@);
            lemma_first_index(parts@[k as int]@, '=');
        }
        let p = chars_of(parts[k].as_str());
        let e: usize = find_from(&p, '=', 0);
        assert(p@.skip(0) =~= p@);
        if e > 0 {
            let name = string_of(&p, 0, e);
            assert(name@ =~= raw_name(p@));
            let value = if e < p.len() {
                let x = string_of(&p, e + 1, p.len());
                assert(x@ =~= raw_value(p@));
                x
            } else {
                String::new()
            };
            let ghost before = entries@;
            let d0 = percent_decode(name.as_str());
            let d1 = percent_decode(value.as_str());
            entries.push((d0, d1));
            assert(pairs_view(entries@) =~= pairs_view(before).push((d0@, d1@)));
        }
        k += 1;
    }
    assert(all.take(all.len() as int) =~= all);
    Params { entries }
}

// ---------------------------------------------------------------------- answers

/// The body of an error.
pub open spec fn error_body(msg: Seq<char>) -> Seq<char> {
    "{\"error\":"@ + quoted_text(msg) + ",\"v\":1}\n"@
}

fn error_json(msg: &str) -> (r: String)
    ensures
        r@ == error_body(msg@),
{
    let mut s = "{\"error\":".to_owned();
    s.append(quoted(msg).as_str());
    s.append(",\"v\":1}\n");
    s
}

/// A status and a body as values.
pub open spec fn reply_view(a: (u16, String)) -> (int, Seq<char>) {
    (a.0 as int, a.1@)
}

/// The answer to a request that cannot be understood.
pub fn bad(msg: &str) -> (r: (u16, String))
    ensures
        reply_view(r) == (400int, error_body(msg@)),
{
    (400, error_json(msg))
}

/// The answer where the database failed.
pub fn db_err(e: &str) -> (r: (u16, String))
    ensures
        reply_view(r) == (500int, error_body("database: "@ + e@)),
{
    let mut s = "database: ".to_owned();
    s.append(e);
    (500, error_json(s.as_str()))
}

/// A range, or the answer to one that is none.
pub open spec fn range_view(r: Result<i64, (u16, String)>) -> Result<int, (int, Seq<char>)> {
    match r {
        Ok(n) => Ok(n as int),
        Err(e) => Err(reply_view(e)),
    }
}

/// The range that a request asks for. `parsed` is what its text was read as.
pub open spec fn asked_range(q: Map<Seq<char>, Seq<char>>, parsed: Option<i64>) -> Result<
    int,
    (int, Seq<char>),
> {
    if !q.dom().contains("range"@) {
        Ok(DEFAULT_RANGE as int)
    } else {
        match parsed {
            Some(n) => Ok(n as int),
            None => Err(
                (
                    400int,
                    error_body("range must look like 15m, 1h, 6h, 24h, 7d (or plain seconds)"@),
                ),
            ),
        }
    }
}

/// The range that a request asks for. `parsed` is what its text was read as.
pub fn range_of(q: &Params, parsed: Option<i64>) -> (r: Result<i64, (u16, String)>)
    ensures
        range_view(r) == asked_range(q@, parsed),
{
    if q.get("range").is_none() {
        return Ok(DEFAULT_RANGE);
    }
    match parsed {
        Some(n) => Ok(n),
        None => Err(bad("range must look like 15m, 1h, 6h, 24h, 7d (or plain seconds)")),
    }
}

// ----------------------------------------------------------------------- series

/// The parts of a list, each without the white space around it, and none of them empty.
pub open spec fn trimmed_parts(parts: Seq<Seq<char>>) -> Seq<Seq<char>>
    decreases parts.len(),
{
    if parts.len() == 0 {
        Seq::empty()
    } else {
        let before = trimmed_parts(parts.drop_last());
        if trimmed(parts.last()).len() == 0 {
            before
        } else {
            before.push(trimmed(parts.last()))
        }
    }
}

/// The metrics that a request names.
pub open spec fn asked_metrics(q: Map<Seq<char>, Seq<char>>) -> Seq<Seq<char>> {
    if q.dom().contains("metrics"@) {
        trimmed_parts(split_on(q["metrics"@], ','))
    } else {
        Seq::empty()
    }
}

fn metrics_of(q: &Params) -> (r: Vec<String>)
    ensures
        views(r@) == asked_metrics(q@),
{
    let mut out: Vec<String> = Vec::new();
    match q.get("metrics") {
        None => {
            assert(views(out@) =~= asked_metrics(q@));
        },
        Some(m) => {
            let parts = split(m.as_str(), ',');
            let ghost all = views(parts@);
            let mut i: usize = 0;
            assert(views(out@) =~= trimmed_parts(all.take(0)));
            while i < parts.len()
                invariant
                    i <= parts@.len(),
                    all == views(parts@),
                    views(out@) == trimmed_parts(all.take(i as int)),
                decreases parts@.len() - i,
            {
                proof {
                    assert(all.take(i + 1).drop_last() =~= all.take(i as int));
                    assert(all.take(i + 1).last() == parts@[i as int]@);
                }
                let t = trim(parts[i].as_str());
                let ghost before = views(out@);
                if !t.as_str().is_empty() {
                    out.push(t);
                    assert(views(out@) =~= before.push(t@));
                }
                i += 1;
            }
            assert(all.take(all.len() as int) =~= all);
        },
    }
    out
}

/// What a request for series comes to.
pub enum SeriesAsk {
    /// no metric is named: the list of what there is
    List,
    Reject((u16, String)),
    /// metrics, range and step; no step means one that fits
    Read(Vec<String>, i64, Option<i64>),
}

/// What a request for series comes to, as values.
pub enum SeriesView {
    List,
    Reject((int, Seq<char>)),
    Read(Seq<Seq<char>>, int, Option<i64>),
}

/// What a request for series comes to, as values.
pub open spec fn series_view(a: SeriesAsk) -> SeriesView {
    match a {
        SeriesAsk::List => SeriesView::List,
        SeriesAsk::Reject(e) => SeriesView::Reject(reply_view(e)),
        SeriesAsk::Read(m, r, s) => SeriesView::Read(views(m@), r as int, s),
    }
}

/// Whether a request leaves the step open.
pub open spec fn step_is_open(q: Map<Seq<char>, Seq<char>>) -> bool {
    !q.dom().contains("step"@) || q["step"@] == "auto"@ || q["step"@].len() == 0
}

/// What a request for series comes to: a list, a refusal for the first of too many metrics, a range
/// and a step that cannot be read, or the read.
pub open spec fn series_asked(
    q: Map<Seq<char>, Seq<char>>,
    range: Option<i64>,
    step: Option<i64>,
) -> SeriesView {
    let metrics = asked_metrics(q);
    if metrics.len() == 0 {
        SeriesView::List
    } else if metrics.len() > MAX_TOKENS {
        SeriesView::Reject(
            (400int, error_body("too many metrics in one request (128 at most)"@)),
        )
    } else {
        match asked_range(q, range) {
            Err(e) => SeriesView::Reject(e),
            Ok(r) => if step_is_open(q) {
                SeriesView::Read(metrics, r, None)
            } else {
                match step {
                    Some(s) => SeriesView::Read(metrics, r, Some(s)),
                    None => SeriesView::Reject(
                        (
                            400int,
                            error_body("step must be `auto` or a duration like 60, 60s, 10m"@),
                        ),
                    ),
                }
            },
        }
    }
}

/// What a request for series comes to. `range` and `step` are what those texts were read as.
pub fn series(q: &Params, range: Option<i64>, step: Option<i64>) -> (r: SeriesAsk)
    ensures
        series_view(r) == series_asked(q@, range, step),
{
    let metrics = metrics_of(q);
    assert(views(metrics@).len() == metrics@.len());
    if metrics.len() == 0 {
        return SeriesAsk::List;
    }
    if metrics.len() > MAX_TOKENS {
        return SeriesAsk::Reject(bad("too many metrics in one request (128 at most)"));
    }
    let r: i64 = match range_of(q, range) {
        Ok(r) => r,
        Err(e) => {
            return SeriesAsk::Reject(e);
        },
    };
    let open = match q.get("step") {
        None => true,
        Some(s) => same(s.as_str(), "auto") || s.as_str().is_empty(),
    };
    if open {
        return SeriesAsk::Read(metrics, r, None);
    }
    match step {
        Some(s) => SeriesAsk::Read(metrics, r, Some(s)),
        None => SeriesAsk::Reject(bad("step must be `auto` or a duration like 60, 60s, 10m")),
    }
}

/// The tiers of stored rows.
#[derive(Clone, Copy, PartialEq, Eq, Structural, Debug)]
pub enum Tier {
    Raw,
    M1,
    M10,
}

/// What decides where a metric is read from.
#[derive(Clone, Copy, PartialEq, Eq, Structural, Debug)]
pub struct MetricFacts {
    /// it is made of the stored probes
    pub probe: bool,
    /// it has no value of its own under a minute
    pub minute_native: bool,
    /// the database has rows of it
    pub recorded: bool,
}

/// Where a metric is read from.
#[derive(Clone, Copy, PartialEq, Eq, Structural, Debug)]
pub enum MetricRead {
    Probes,
    /// the stored samples; whether the metric is known already
    Samples(bool),
    /// the rolled-up rows of this many seconds
    Rollup(i64),
}

/// Where a metric is read from, in a tier.
pub open spec fn metric_source(tier: Tier, m: MetricFacts) -> MetricRead {
    if m.probe {
        MetricRead::Probes
    } else if tier == Tier::Raw && !m.minute_native {
        MetricRead::Samples(m.recorded)
    } else if tier == Tier::M10 {
        MetricRead::Rollup(600)
    } else {
        MetricRead::Rollup(60)
    }
}

/// Where each metric is read from, and whether the samples and the probes are read at all.
pub fn series_reads(tier: Tier, metrics: &Vec<MetricFacts>) -> (r: (Vec<MetricRead>, bool, bool))
    ensures
        r.0@ == metrics@.map_values(|m: MetricFacts| metric_source(tier, m)),
        r.1 == exists|i: int| 0 <= i < r.0@.len() && #[trigger] r.0@[i] is Samples,
        r.2 == exists|i: int| 0 <= i < r.0@.len() && #[trigger] r.0@[i] is Probes,
{
    let mut out: Vec<MetricRead> = Vec::new();
    let mut samples = false;
    let mut probes = false;
    let mut i: usize = 0;
    let ghost f = |m: MetricFacts| metric_source(tier, m);
    while i < metrics.len()
        invariant
            i <= metrics@.len(),
            f == (|m: MetricFacts| metric_source(tier, m)),
            out@ == metrics@.take(i as int).map_values(f),
            samples == exists|k: int| 0 <= k < out@.len() && #[trigger] out@[k] is Samples,
            probes == exists|k: int| 0 <= k < out@.len() && #[trigger] out@[k] is Probes,
        decreases metrics@.len() - i,
    {
        let m = metrics[i];
        let read = if m.probe {
            MetricRead::Probes
        } else if tier == Tier::Raw && !m.minute_native {
            MetricRead::Samples(m.recorded)
        } else if tier == Tier::M10 {
            MetricRead::Rollup(600)
        } else {
            MetricRead::Rollup(60)
        };
        let ghost before = out@;
        out.push(read);
        match read {
            MetricRead::Samples(_) => {
                samples = true;
            },
            MetricRead::Probes => {
                probes = true;
            },
            MetricRead::Rollup(_) => {},
        }
        proof {
            assert(out@ =~= metrics@.take(i + 1).map_values(f));
            assert(out@[before.len() as int] == read);
            assert forall|k: int| 0 <= k < before.len() implies out@[k] == #[trigger] before[k] by {
            }
        }
        i += 1;
    }
    assert(metrics@.take(metrics@.len() as int) =~= metrics@);
    (out, samples, probes)
}

/// The instant a series ends at, and the instant its samples are read from: one sample earlier than
/// it starts, so that the first rate has something to be taken against.
pub fn series_span(start: i64, points: u32, step: i64) -> (r: (i64, i64))
    requires
        start - 10 >= i64::MIN,
        i64::MIN <= start + points * step <= i64::MAX,
        i64::MIN <= points * step <= i64::MAX,
    ensures
        r.0 == start + points * step,
        r.1 == start - 10,
{
    let width: i64 = points as i64 * step;
    (start + width, start - 10)
}

/// Which series a probe is a point of: `c1_tok_s`, `c1_invalid`, `c1_invalid_tok_s`.
pub fn probe_points(reading: bool, has_speed: bool) -> (r: (bool, bool, bool))
    ensures
        r.0 == (reading && has_speed),
        r.1 == !reading,
        r.2 == (!reading && has_speed),
{
    (reading && has_speed, !reading, !reading && has_speed)
}

// ------------------------------------------------------------ the list of names

/// Whether texts are in order.
pub open spec fn in_order(v: Seq<Seq<char>>) -> bool {
    forall|i: int, j: int| 0 <= i < j < v.len() ==> text_le(#[trigger] v[i], #[trigger] v[j])
}

/// The same texts, in order.
pub fn sorted(names: &Vec<String>) -> (r: Vec<String>)
    ensures
        in_order(views(r@)),
        views(r@).to_multiset() == views(names@).to_multiset(),
{
    let mut out: Vec<String> = Vec::new();
    let ghost all = views(names@);
    let mut i: usize = 0;
    assert(views(out@) =~= Seq::<Seq<char>>::empty());
    assert(all.take(0) =~= Seq::<Seq<char>>::empty());
    while i < names.len()
        invariant
            i <= names@.len(),
            all == views(names@),
            in_order(views(out@)),
            views(out@).to_multiset() == all.take(i as int).to_multiset(),
        decreases names@.len() - i,
    {
        let mut p: usize = 0;
        while p < out.len() && not_behind(out[p].as_str(), names[i].as_str())
            invariant
                i < names@.len(),
                p <= out@.len(),
                forall|k: int| 0 <= k < p ==> text_le(#[trigger] views(out@)[k], names@[i as int]@),
            decreases out@.len() - p,
        {
            assert(views(out@)[p as int] == out@[p as int]@);
            p += 1;
        }
        let ghost before = views(out@);
        let ghost x = names@[i as int]@;
        proof {
            if p < out@.len() {
                assert(before[p as int] == out@[p as int]@);
                lemma_text_le_total(before[p as int], x);
            }
        }
        out.insert(p, names[i].clone());
        proof {
            let after = views(out@);
            assert(after =~= before.insert(p as int, x));
            assert forall|j: int, k: int| 0 <= j < k < after.len() implies text_le(
                #[trigger] after[j],
                #[trigger] after[k],
            ) by {
                let jb = if j < p {
                    j
                } else {
                    j - 1
                };
                let kb = if k < p {
                    k
                } else {
                    k - 1
                };
                if j != p && k != p {
                    assert(text_le(before[jb], before[kb]));
                } else if k == p {
                    assert(text_le(before[j], x));
                } else {
                    if kb > p {
                        assert(text_le(before[p as int], before[kb]));
                        lemma_text_le_trans(x, before[p as int], before[kb]);
                    }
                }
            }
            before.to_multiset_ensures();
            lemma_insert_multiset(before, p as int, x);
            assert(all.take(i + 1) =~= all.take(i as int).push(x));
            all.take(i as int).to_multiset_ensures();
        }
        i += 1;
    }
    assert(all.take(all.len() as int) =~= all);
    out
}

proof fn lemma_insert_multiset(s: Seq<Seq<char>>, p: int, x: Seq<char>)
    requires
        0 <= p <= s.len(),
    ensures
        s.insert(p, x).to_multiset() == s.to_multiset().insert(x),
{
    let a = s.take(p);
    let b = s.skip(p);
    assert(s.insert(p, x) =~= a.push(x) + b);
    assert(s =~= a + b);
    vstd::seq_lib::lemma_multiset_commutative(a, b);
    vstd::seq_lib::lemma_multiset_commutative(a.push(x), b);
    a.to_multiset_ensures();
    assert(s.insert(p, x).to_multiset() =~= s.to_multiset().insert(x));
}

/// Texts as a JSON list.
pub open spec fn json_list(v: Seq<Seq<char>>) -> Seq<char> {
    "["@ + joined(v.map_values(|s: Seq<char>| quoted_text(s)), ","@) + "]"@
}

fn list_json(v: &Vec<String>) -> (r: String)
    ensures
        r@ == json_list(views(v@)),
{
    let mut parts: Vec<String> = Vec::new();
    let ghost f = |s: Seq<char>| quoted_text(s);
    let mut i: usize = 0;
    while i < v.len()
        invariant
            i <= v@.len(),
            f == (|s: Seq<char>| quoted_text(s)),
            views(parts@) == views(v@).take(i as int).map_values(f),
        decreases v@.len() - i,
    {
        let ghost before = views(parts@);
        let q = quoted(v[i].as_str());
        parts.push(q);
        assert(views(parts@) =~= before.push(q@));
        assert(views(parts@) =~= views(v@).take(i + 1).map_values(f));
        i += 1;
    }
    assert(views(v@).take(v@.len() as int) =~= views(v@));
    let mut s = "[".to_owned();
    s.append(crate::text::join(&parts, ",").as_str());
    s.append("]");
    s
}

/// The body that lists `names`.
pub open spec fn list_body(names: Seq<Seq<char>>, ranges: Seq<Seq<char>>, max_points: nat) -> Seq<char> {
    "{\"aggregates\":[\"avg\",\"min\",\"max\"],\"max_points\":"@ + dec(max_points) + ",\"metrics\":"@
        + json_list(names) + ",\"ranges\":"@ + json_list(ranges) + ",\"v\":1}\n"@
}

/// The series that are made of the probes.
pub open spec fn probe_series() -> Seq<Seq<char>> {
    seq!["c1_tok_s"@, "c1_invalid"@, "c1_invalid_tok_s"@]
}

/// The answer that lists what there is: the recorded metrics and the series of the probes, in order.
pub fn metric_list(recorded: &Vec<String>, ranges: &Vec<String>, max_points: u64) -> (r: (u16, String))
    ensures
        r.0 == 200,
        exists|names: Seq<Seq<char>>|
            in_order(names) && names.to_multiset() == (views(recorded@)
                + probe_series()).to_multiset() && r.1@ == #[trigger] list_body(
                names,
                views(ranges@),
                max_points as nat,
            ),
{
    let mut names: Vec<String> = Vec::new();
    let mut i: usize = 0;
    while i < recorded.len()
        invariant
            i <= recorded@.len(),
            names@ == recorded@.take(i as int),
        decreases recorded@.len() - i,
    {
        names.push(recorded[i].clone());
        i += 1;
    }
    names.push("c1_tok_s".to_owned());
    names.push("c1_invalid".to_owned());
    names.push("c1_invalid_tok_s".to_owned());
    assert(views(names@) =~= views(recorded@) + probe_series());
    let names = sorted(&names);
    let mut s = "{\"aggregates\":[\"avg\",\"min\",\"max\"],\"max_points\":".to_owned();
    s.append(dec_u64(max_points).as_str());
    s.append(",\"metrics\":");
    s.append(list_json(&names).as_str());
    s.append(",\"ranges\":");
    s.append(list_json(ranges).as_str());
    s.append(",\"v\":1}\n");
    assert(s@ == list_body(views(names@), views(ranges@), max_points as nat));
    (200, s)
}

// ------------------------------------------------------------- the status series

/// Whether bucket `i` of a grid starts inside the minute that starts at `ts`.
pub open spec fn in_minute(start: int, step: int, i: int, ts: int) -> bool {
    ts <= start + i * step < ts + 60
}

/// The value that bucket `i` gets: that of the last row whose minute it starts in.
pub open spec fn bucket_value<T>(
    start: int,
    step: int,
    rows: Seq<(i64, Option<T>)>,
    i: int,
) -> Option<T>
    decreases rows.len(),
{
    if rows.len() == 0 {
        None
    } else if rows.last().1 is Some && in_minute(start, step, i, rows.last().0 as int) {
        rows.last().1
    } else {
        bucket_value(start, step, rows.drop_last(), i)
    }
}

/// Places rows of one minute each on a grid of `n` buckets: each bucket has the value of its minute,
/// and none where its minute has none.
pub fn fill_status_series<T: Copy>(
    start: i64,
    step_s: i64,
    n: usize,
    rows: &Vec<(i64, Option<T>)>,
) -> (r: Vec<Option<T>>)
    ensures
        r@.len() == n,
        forall|i: int|
            0 <= i < n ==> #[trigger] r@[i] == bucket_value(
                start as int,
                if step_s < 1 {
                    1
                } else {
                    step_s as int
                },
                rows@,
                i,
            ),
{
    let step: i64 = if step_s < 1 {
        1
    } else {
        step_s
    };
    let mut out: Vec<Option<T>> = Vec::new();
    let mut i: usize = 0;
    while i < n
        invariant
            i <= n,
            out@.len() == i,
            forall|k: int| 0 <= k < i ==> #[trigger] out@[k] is None,
        decreases n - i,
    {
        out.push(None);
        i += 1;
    }
    let mut j: usize = 0;
    while j < rows.len()
        invariant
            j <= rows@.len(),
            out@.len() == n,
            step >= 1,
            forall|k: int|
                0 <= k < n ==> #[trigger] out@[k] == bucket_value(
                    start as int,
                    step as int,
                    rows@.take(j as int),
                    k,
                ),
        decreases rows@.len() - j,
    {
        let row: (i64, Option<T>) = rows[j];
        proof {
            assert(rows@.take(j + 1).drop_last() =~= rows@.take(j as int));
            assert(rows@.take(j + 1).last() == row);
        }
        if row.1.is_some() {
            let ghost before = out@;
            let mut k: usize = 0;
            let mut at: i128 = start as i128;
            while k < n
                invariant
                    k <= n,
                    out@.len() == n,
                    before.len() == n,
                    step >= 1,
                    at == start + k * step,
                    -0x8000_0000_0000_0000 <= at,
                    k * step <= k * 0x7fff_ffff_ffff_ffff,
                    k <= 0xffff_ffff_ffff_ffff,
                    at <= 0x7fff_ffff_ffff_ffff + k * 0x7fff_ffff_ffff_ffff,
                    row.1 is Some,
                    forall|x: int|
                        0 <= x < k ==> #[trigger] out@[x] == (if in_minute(
                            start as int,
                            step as int,
                            x,
                            row.0 as int,
                        ) {
                            row.1
                        } else {
                            before[x]
                        }),
                    forall|x: int| k <= x < n ==> #[trigger] out@[x] == before[x],
                decreases n - k,
            {
                let ts: i128 = row.0 as i128;
                assert((k + 1) * step == k * step + step) by (nonlinear_arith);
                assert((k + 1) * 0x7fff_ffff_ffff_ffff == k * 0x7fff_ffff_ffff_ffff
                    + 0x7fff_ffff_ffff_ffff) by (nonlinear_arith);
                if ts <= at && at < ts + 60 {
                    out.set(k, row.1);
                }
                at = at + step as i128;
                k += 1;
            }
        }
        proof {
            assert forall|k: int| 0 <= k < n implies #[trigger] out@[k] == bucket_value(
                start as int,
                step as int,
                rows@.take(j + 1),
                k,
            ) by {
            }
        }
        j += 1;
    }
    assert(rows@.take(rows@.len() as int) =~= rows@);
    out
}

/// The middle of bucket `i` of a grid: the instant that its power is priced at.
pub fn bucket_middle(start: i64, step: i64, i: u32) -> (r: i64)
    requires
        step > 0,
        start + (i + 1) * step <= i64::MAX,
        (i + 1) * step <= i64::MAX,
    ensures
        r == start + i * step + step / 2,
{
    assert(i * step <= (i + 1) * step) by (nonlinear_arith)
        requires
            step > 0,
    ;
    assert(i * step + step == (i + 1) * step) by (nonlinear_arith);
    assert(0 <= i * step) by (nonlinear_arith)
        requires
            step > 0,
    ;
    let at: i64 = i as i64 * step;
    start + at + step / 2
}

/// A minute's value lies in the buckets that start in that minute and in no other: a bucket that starts
/// in no minute with a value is empty.
pub proof fn law_values_are_not_carried_on<T>(
    start: int,
    step: int,
    rows: Seq<(i64, Option<T>)>,
    i: int,
)
    ensures
        bucket_value(start, step, rows, i) is Some <==> exists|j: int|
            0 <= j < rows.len() && (#[trigger] rows[j]).1 is Some && in_minute(
                start,
                step,
                i,
                rows[j].0 as int,
            ),
    decreases rows.len(),
{
    if rows.len() > 0 {
        let rest = rows.drop_last();
        law_values_are_not_carried_on(start, step, rest, i);
        let last = rows[rows.len() - 1];
        if last.1 is Some && in_minute(start, step, i, last.0 as int) {
        } else {
            if bucket_value(start, step, rows, i) is Some {
                let j = choose|j: int|
                    0 <= j < rest.len() && (#[trigger] rest[j]).1 is Some && in_minute(
                        start,
                        step,
                        i,
                        rest[j].0 as int,
                    );
                assert(rows[j] == rest[j]);
            }
            if exists|j: int|
                0 <= j < rows.len() && (#[trigger] rows[j]).1 is Some && in_minute(
                    start,
                    step,
                    i,
                    rows[j].0 as int,
                ) {
                let j = choose|j: int|
                    0 <= j < rows.len() && (#[trigger] rows[j]).1 is Some && in_minute(
                        start,
                        step,
                        i,
                        rows[j].0 as int,
                    );
                assert(rest[j] == rows[j]);
            }
        }
    }
}

// ------------------------------------------------------------------- histograms

/// The smaller of two ranges.
pub open spec fn shorter(a: int, b: int) -> int {
    if a <= b {
        a
    } else {
        b
    }
}

/// What a request for a histogram comes to: the metric and the range, or a refusal. `known` says
/// whether the metric that it names is one, `parsed` what its range was read as.
pub fn hist(q: &Params, known: bool, parsed: Option<i64>, keep: Retention) -> (r: Result<
    (String, i64),
    (u16, String),
>)
    ensures
        match r {
            Ok(a) => q@.dom().contains("metric"@) && known && asked_range(q@, parsed) is Ok && a.0@
                == q@["metric"@] && a.1 == shorter(asked_range(q@, parsed)->Ok_0, keep.m10 as int),
            Err(e) => reply_view(e) == (if !q@.dom().contains("metric"@) || !known {
                (
                    400int,
                    error_body(
                        "metric must be one of ttft, e2e, itl, queue_time, prompt_tokens, gen_tokens"@,
                    ),
                )
            } else {
                asked_range(q@, parsed)->Err_0
            }) && (!q@.dom().contains("metric"@) || !known || asked_range(q@, parsed) is Err),
        },
{
    match q.get("metric") {
        Some(m) => {
            if known {
                return match range_of(q, parsed) {
                    Ok(r) => Ok(
                        (
                            m,
                            if r <= keep.m10 {
                                r
                            } else {
                                keep.m10
                            },
                        ),
                    ),
                    Err(e) => Err(e),
                };
            }
        },
        None => {},
    }
    Err(bad("metric must be one of ttft, e2e, itl, queue_time, prompt_tokens, gen_tokens"))
}

/// The column that a row belongs to: by its time, and the first or last where that lies outside.
pub open spec fn column(ts: int, start: int, step: int, cols: int) -> int {
    if ts < start {
        0
    } else if (ts - start) / step >= cols {
        cols - 1
    } else {
        (ts - start) / step
    }
}

/// The columns that rows belong to. Only rows of the layout that is drawn have one.
pub fn columns_of(
    rows: &Vec<(i64, bool)>,
    start: i64,
    step: i64,
    cols: usize,
) -> (r: Vec<Option<usize>>)
    requires
        step > 0,
        0 < cols <= i64::MAX,
    ensures
        r@.len() == rows@.len(),
        forall|i: int|
            0 <= i < rows@.len() ==> (match #[trigger] r@[i] {
                Some(c) => rows@[i].1 && c == column(
                    rows@[i].0 as int,
                    start as int,
                    step as int,
                    cols as int,
                ) && c < cols,
                None => !rows@[i].1,
            }),
{
    let mut out: Vec<Option<usize>> = Vec::new();
    let mut i: usize = 0;
    while i < rows.len()
        invariant
            i <= rows@.len(),
            step > 0,
            0 < cols <= i64::MAX,
            out@.len() == i,
            forall|k: int|
                0 <= k < i ==> (match #[trigger] out@[k] {
                    Some(c) => rows@[k].1 && c == column(
                        rows@[k].0 as int,
                        start as int,
                        step as int,
                        cols as int,
                    ) && c < cols,
                    None => !rows@[k].1,
                }),
        decreases rows@.len() - i,
    {
        let row: (i64, bool) = rows[i];
        if row.1 {
            let d: i128 = row.0 as i128 - start as i128;
            let c: usize = if d < 0 {
                0
            } else {
                let q: i128 = d / step as i128;
                proof {
                    vstd::arithmetic::div_mod::lemma_div_pos_is_pos(d as int, step as int);
                }
                if q >= cols as i128 {
                    cols - 1
                } else {
                    q as usize
                }
            };
            out.push(Some(c));
        } else {
            out.push(None);
        }
        i += 1;
    }
    out
}

// ---------------------------------------------------------------------- gateway

/// Which rows answer a request about the gateway.
#[derive(Clone, Copy, PartialEq, Eq, Structural, Debug)]
pub struct GatewayRead {
    pub range: i64,
    /// the samples of the range one by one; else the ten-minute buckets, and the open one
    pub samples: bool,
    /// from where to before where the rows are read
    pub from: i64,
    pub until: i64,
    /// from where the probes are read
    pub probes_from: i64,
}

/// Which rows answer a request about the gateway over `range` seconds.
pub open spec fn gateway_rows(now: int, range: int, r: GatewayRead) -> bool {
    &&& r.range == range
    &&& r.samples == (range <= 3600)
    &&& r.from == (if range <= 3600 {
        now - range + 1
    } else {
        bucket_start(now - range, 600)
    })
    &&& r.until == now + 1
    &&& r.probes_from == now - range + 1
}

/// Which rows answer a request about the gateway. Up to an hour the stored samples are merged
/// exactly; beyond that the ten-minute buckets are, with the one that is still open. The range is
/// cut to what is kept.
pub fn gateway(now: i64, q: &Params, parsed: Option<i64>, keep: Retention) -> (r: Result<
    GatewayRead,
    (u16, String),
>)
    requires
        now < i64::MAX,
        forall|n: int|
            asked_range(q@, parsed) == Ok::<int, (int, Seq<char>)>(n) ==> i64::MIN + 600 <= now
                - shorter(n, keep.m10 as int) < i64::MAX,
    ensures
        match asked_range(q@, parsed) {
            Ok(n) => r is Ok && gateway_rows(now as int, shorter(n, keep.m10 as int), r->Ok_0),
            Err(e) => r is Err && reply_view(r->Err_0) == e,
        },
{
    let asked: i64 = match range_of(q, parsed) {
        Ok(r) => r,
        Err(e) => {
            return Err(e);
        },
    };
    let range: i64 = if asked <= keep.m10 {
        asked
    } else {
        keep.m10
    };
    assert(asked_range(q@, parsed) == Ok::<int, (int, Seq<char>)>(asked as int));
    let from: i64 = (now as i128 - range as i128) as i64;
    if range <= 3600 {
        Ok(
            GatewayRead {
                range,
                samples: true,
                from: from + 1,
                until: now + 1,
                probes_from: from + 1,
            },
        )
    } else {
        Ok(
            GatewayRead {
                range,
                samples: false,
                from: floor_to(from, 600),
                until: now + 1,
                probes_from: from + 1,
            },
        )
    }
}

/// A long range is read from the start of a bucket that reaches over its beginning: nothing of the
/// range is left out, and less than one bucket is read too much.
pub proof fn law_gateway_covers_the_range(now: int, range: int, r: GatewayRead)
    requires
        gateway_rows(now, range, r),
    ensures
        r.from <= now - range + 1 <= r.probes_from,
        r.from > now - range - 600,
        r.until == now + 1,
{
}

// ----------------------------------------------------------------------- tokens

/// What the document says of its sources besides the numbers.
#[derive(Clone, Copy, PartialEq, Eq, Structural, Debug)]
pub struct TokensDocFlags {
    pub gate_absent: bool,
    pub tokens_not_reported: bool,
}

/// The spans of the document: the last hour, day and week, and today.
pub open spec fn token_spans(now: int, midnight: int) -> Seq<(Seq<char>, int)> {
    seq![
        ("1h"@, 3600),
        ("24h"@, 86_400),
        ("7d"@, 604_800),
        (
            "today"@,
            if now >= midnight {
                now - midnight
            } else {
                0
            },
        ),
    ]
}

/// Which rows a span is summed from: the minute rows from `minutes_from` on, and for more than a day
/// the ten-minute rows from `tens_from` to before that.
#[derive(Clone, Copy, PartialEq, Eq, Structural, Debug)]
pub struct SpanRead {
    pub secs: i64,
    pub tens_from: Option<i64>,
    pub minutes_from: i64,
    /// the tier that a span's own facts are read from
    pub tier: i64,
}

/// Which rows a span is summed from.
pub open spec fn span_read(now: int, secs: int, r: SpanRead) -> bool {
    &&& r.secs == secs
    &&& secs <= 86_400 ==> r.tens_from is None && r.minutes_from == now - secs && r.tier == 60
    &&& secs > 86_400 ==> {
        &&& r.tens_from is Some
        &&& r.tens_from->0 == now - secs
        &&& r.minutes_from == bucket_start(now - 86_400, 600)
        &&& r.tier == 600
    }
}

fn read_span(now: i64, secs: i64) -> (r: SpanRead)
    requires
        secs >= 0,
        now - secs >= i64::MIN,
        now - 86_400 - 600 >= i64::MIN,
    ensures
        span_read(now as int, secs as int, r),
{
    if secs <= 86_400 {
        SpanRead { secs, tens_from: None, minutes_from: now - secs, tier: 60 }
    } else {
        SpanRead {
            secs,
            tens_from: Some(now - secs),
            minutes_from: floor_to(now - 86_400, 600),
            tier: 600,
        }
    }
}

/// No row counts twice and none is left out: of a long span every instant is read from the
/// ten-minute rows or from the minute rows, never from both. The minute rows reach at least over the
/// last day, so a week is never less than its last day.
pub proof fn law_spans_count_once(now: int, secs: int, r: SpanRead, t: int)
    requires
        span_read(now, secs, r),
        secs >= 0,
        now - secs <= t <= now,
    ensures
        r.tens_from is None ==> r.minutes_from <= t,
        r.tens_from is Some ==> (r.tens_from->0 <= t < r.minutes_from) != (r.minutes_from <= t),
        secs > 86_400 ==> r.minutes_from <= now - 86_400,
        secs > 86_400 ==> r.minutes_from as int % 600 == 0,
{
    if secs > 86_400 {
        let x = now - 86_400;
        vstd::arithmetic::div_mod::lemma_fundamental_div_mod(x, 600);
        assert(bucket_start(x, 600) == 600 * (x / 600));
    }
}

/// From when on the requests of a span are counted, where that is not its whole length: the first
/// request is later than the first token of the span by more than a row.
pub open spec fn requests_from(
    now: int,
    secs: int,
    tier: int,
    first_request: Option<i64>,
    first_token: Option<i64>,
) -> Option<i64> {
    match (first_request, first_token) {
        (Some(fr), Some(fg)) if fr > later(now - secs, fg as int) + tier => Some(fr),
        _ => None,
    }
}

/// From when on the requests of a span are counted, where that is not its whole length: the first
/// request is later than the first token of the span by more than a row.
pub fn requests_since(
    now: i64,
    secs: i64,
    tier: i64,
    first_request: Option<i64>,
    first_token: Option<i64>,
) -> (r: Option<i64>)
    ensures
        r == requests_from(now as int, secs as int, tier as int, first_request, first_token),
{
    match first_request {
        Some(fr) => match first_token {
            Some(fg) => {
                let a: i128 = now as i128 - secs as i128;
                let b: i128 = fg as i128;
                let m: i128 = if a >= b {
                    a
                } else {
                    b
                };
                if fr as i128 > m + tier as i128 {
                    Some(fr)
                } else {
                    None
                }
            },
            None => None,
        },
        None => None,
    }
}

/// From when on the share of cached tokens is taken: since both counters exist, inside the span.
pub fn cache_share_from(
    now: i64,
    secs: i64,
    first_cached: Option<i64>,
    first_prompt: Option<i64>,
) -> (r: Option<i64>)
    requires
        now - secs >= i64::MIN,
        now - secs <= i64::MAX,
    ensures
        r == (match (first_cached, first_prompt) {
            (Some(c), Some(p)) => Some(later(later(now - secs, c as int), p as int) as i64),
            _ => None,
        }),
{
    match first_cached {
        Some(c) => match first_prompt {
            Some(p) => Some(later_of(later_of(now - secs, c), p)),
            None => None,
        },
        None => None,
    }
}

/// Where the total of all time begins, and before which instant the history is added to the ledger.
pub open spec fn all_time_from(ledger_since: i64, first_token: Option<i64>) -> (i64, Option<int>) {
    (
        match first_token {
            Some(t) if ledger_since == 0 || t < ledger_since => t,
            _ => ledger_since,
        },
        if ledger_since > 0 {
            Some(later(ledger_since - 599, 0))
        } else {
            None
        },
    )
}

/// Where the total of all time begins, and before which instant the history is added to the ledger:
/// only buckets that ended before the ledger began are.
pub fn all_time_since(ledger_since: i64, first_token: Option<i64>) -> (r: (i64, Option<i64>))
    ensures
        r.0 == all_time_from(ledger_since, first_token).0,
        (match r.1 {
            Some(t) => Some(t as int),
            None => None::<int>,
        }) == all_time_from(ledger_since, first_token).1,
{
    let since: i64 = match first_token {
        Some(t) => if ledger_since == 0 || t < ledger_since {
            t
        } else {
            ledger_since
        },
        None => ledger_since,
    };
    let before: Option<i64> = if ledger_since > 0 {
        Some(later_of(ledger_since - 599, 0))
    } else {
        None
    };
    (since, before)
}

/// Where the numbers of a row of the document come from.
#[derive(Clone, Copy, PartialEq, Eq, Structural, Debug)]
pub enum TokenRead {
    /// the rows of a span
    Span(SpanRead),
    /// the ledger, and the ten-minute rows from before this instant where there is one
    Ledger(Option<i64>),
}

/// A row of the document.
pub struct TokenRow {
    pub name: String,
    pub secs: i64,
    pub read: TokenRead,
}

/// Whether `r` are the rows of the document: the spans in their order, then all time, which reaches
/// back to where the ledger or the history begins.
pub open spec fn are_token_rows(
    now: int,
    midnight: int,
    ledger_since: i64,
    first_token: Option<i64>,
    r: Seq<TokenRow>,
) -> bool {
    let spans = token_spans(now, midnight);
    let all = all_time_from(ledger_since, first_token);
    &&& r.len() == spans.len() + 1
    &&& forall|i: int|
        #![trigger r[i]]
        0 <= i < spans.len() ==> r[i].name@ == spans[i].0 && r[i].secs == spans[i].1
            && r[i].read is Span && span_read(now, spans[i].1, r[i].read->Span_0)
    &&& r.last().name@ == "all"@
    &&& r.last().secs == later(now - all.0, 0)
    &&& r.last().read is Ledger
    &&& (match r.last().read->Ledger_0 {
        Some(t) => Some(t as int),
        None => None::<int>,
    }) == all.1
}

fn span_row(name: &str, now: i64, secs: i64) -> (r: TokenRow)
    requires
        secs >= 0,
        now - secs >= i64::MIN,
        now - 86_400 - 600 >= i64::MIN,
    ensures
        r.name@ == name@,
        r.secs == secs,
        r.read is Span && span_read(now as int, secs as int, r.read->Span_0),
{
    TokenRow { name: name.to_owned(), secs, read: TokenRead::Span(read_span(now, secs)) }
}

/// The rows of the document: the last hour, day and week, today, and all time, each with what it is
/// summed from. `ledger_since` is when the ledger began, 0 where there is none; `first_token` the first
/// ten-minute row of generated tokens.
pub fn tokens_doc(now: i64, midnight: i64, ledger_since: i64, first_token: Option<i64>) -> (r: Vec<
    TokenRow,
>)
    requires
        now - 604_800 >= i64::MIN,
        now - midnight <= i64::MAX,
        now - ledger_since <= i64::MAX,
        first_token is Some ==> now - first_token->0 <= i64::MAX,
    ensures
        are_token_rows(now as int, midnight as int, ledger_since, first_token, r@),
{
    let mut out: Vec<TokenRow> = Vec::new();
    out.push(span_row("1h", now, 3600));
    out.push(span_row("24h", now, 86_400));
    out.push(span_row("7d", now, 604_800));
    let today: i64 = if now >= midnight {
        now - midnight
    } else {
        0
    };
    out.push(span_row("today", now, today));
    let all = all_time_since(ledger_since, first_token);
    let secs: i64 = if now >= all.0 {
        now - all.0
    } else {
        0
    };
    out.push(TokenRow { name: "all".to_owned(), secs, read: TokenRead::Ledger(all.1) });
    out
}

/// Every ten-minute bucket that is added to the ledger ended before the ledger began: nothing is
/// counted twice.
pub proof fn law_ledger_counts_once(ledger_since: i64, first_token: Option<i64>, bucket: int)
    requires
        ledger_since > 0,
        bucket >= 0,
        bucket < all_time_from(ledger_since, first_token).1->0,
    ensures
        bucket + 600 <= ledger_since,
        all_time_from(ledger_since, first_token).0 <= ledger_since,
{
}

/// From when on the requests of all time are counted, where that is later than its beginning by more
/// than a bucket.
pub fn all_requests_since(week: Option<i64>, all_since: i64) -> (r: Option<i64>)
    ensures
        r == (match week {
            Some(t) if t > all_since + 600 => Some(t),
            _ => None,
        }),
{
    match week {
        Some(t) => if t as i128 > all_since as i128 + 600 {
            Some(t)
        } else {
            None
        },
        None => None,
    }
}

// ---------------------------------------------------------- the probe's address

/// A text up to its first slash.
pub open spec fn before_slash(s: Seq<char>) -> Seq<char> {
    s.take(first_index(s, '/'))
}

/// What stands behind the scheme of a URL, up to a second `://` where there is one.
pub open spec fn behind_scheme(url: Seq<char>, cut: bool) -> Seq<char> {
    let i = first_at(url, "://"@, 0);
    if i < 0 {
        url
    } else {
        let rest = url.skip(i + 3);
        let j = first_at(rest, "://"@, 0);
        if cut && j >= 0 {
            rest.take(j)
        } else {
            rest
        }
    }
}

fn authority(url: &str, cut: bool) -> (r: String)
    ensures
        r@ == before_slash(behind_scheme(url@, cut)),
{
    proof {
        reveal_strlit("://");
    }
    let v = chars_of(url);
    let n: usize = v.len();
    let p = chars_of("://");
    let rest: String = match find_text(&v, &p, 0) {
        None => url.to_owned(),
        Some(i) => {
            let rest = string_of(&v, i + 3, n);
            assert(rest@ =~= url@.skip(i + 3));
            let w = chars_of(rest.as_str());
            match find_text(&w, &p, 0) {
                Some(j) => if cut {
                    let t = string_of(&w, 0, j);
                    assert(t@ =~= rest@.take(j as int));
                    t
                } else {
                    rest
                },
                None => rest,
            }
        },
    };
    let w = chars_of(rest.as_str());
    let k: usize = find_from(&w, '/', 0);
    assert(w@.skip(0) =~= w@);
    let r = string_of(&w, 0, k);
    assert(r@ =~= before_slash(rest@));
    r
}

/// The place of the last colon, or -1.
pub open spec fn last_colon(s: Seq<char>) -> int
    decreases s.len(),
{
    if s.len() == 0 {
        -1
    } else if s.last() == ':' {
        s.len() - 1
    } else {
        last_colon(s.drop_last())
    }
}

fn find_last_colon(v: &Vec<char>) -> (r: Option<usize>)
    ensures
        match r {
            Some(i) => i == last_colon(v@) && i < v@.len(),
            None => last_colon(v@) == -1,
        },
{
    let mut i: usize = v.len();
    assert(v@.take(v@.len() as int) =~= v@);
    while i > 0
        invariant
            i <= v@.len(),
            last_colon(v@) == last_colon(v@.take(i as int)),
        decreases i,
    {
        assert(v@.take(i as int).drop_last() =~= v@.take(i - 1));
        if v[i - 1] == ':' {
            return Some(i - 1);
        }
        i -= 1;
    }
    None
}

/// An authority without its port, where what stands behind the last colon is one.
pub open spec fn without_port(s: Seq<char>) -> Seq<char> {
    let i = last_colon(s);
    if i >= 0 && parse_int(s.skip(i + 1), false) is Some && parse_int(s.skip(i + 1), false)->0
        <= u16::MAX {
        s.take(i)
    } else {
        s
    }
}

/// A text without the opening brackets it starts with.
pub open spec fn without_open(s: Seq<char>) -> Seq<char>
    decreases s.len(),
{
    if s.len() > 0 && s[0] == '[' {
        without_open(s.drop_first())
    } else {
        s
    }
}

/// A text without the closing brackets it ends with.
pub open spec fn without_close(s: Seq<char>) -> Seq<char>
    decreases s.len(),
{
    if s.len() > 0 && s.last() == ']' {
        without_close(s.drop_last())
    } else {
        s
    }
}

/// The host of a gateway's URL.
pub open spec fn host_of(url: Seq<char>) -> Seq<char> {
    without_close(without_open(without_port(before_slash(behind_scheme(url, true)))))
}

/// The host of a gateway's URL.
pub fn gate_host(url: &str) -> (r: String)
    ensures
        r@ == host_of(url@),
{
    let a = authority(url, true);
    let v = chars_of(a.as_str());
    assert(v@.take(v@.len() as int) =~= v@);
    assert(v@.subrange(0, v@.len() as int) =~= v@);
    let mut end: usize = v.len();
    if let Some(i) = find_last_colon(&v) {
        let port = string_of(&v, i + 1, v.len());
        assert(port@ =~= v@.skip(i + 1));
        if let Some(p) = parse_u64(port.as_str()) {
            if p <= 65535 {
                end = i;
            }
        }
    }
    let ghost bare = without_port(a@);
    assert(bare =~= v@.subrange(0, end as int));
    let mut from: usize = 0;
    while from < end && v[from] == '['
        invariant
            from <= end <= v@.len(),
            without_open(bare) == without_open(v@.subrange(from as int, end as int)),
        decreases end - from,
    {
        assert(v@.subrange(from as int, end as int).drop_first() =~= v@.subrange(
            from + 1,
            end as int,
        ));
        from += 1;
    }
    let ghost inner = v@.subrange(from as int, end as int);
    assert(without_open(bare) == inner);
    let mut to: usize = end;
    while to > from && v[to - 1] == ']'
        invariant
            from <= to <= v@.len(),
            without_close(inner) == without_close(v@.subrange(from as int, to as int)),
        decreases to,
    {
        assert(v@.subrange(from as int, to as int).drop_last() =~= v@.subrange(from as int, to - 1));
        to -= 1;
    }
    string_of(&v, from, to)
}

/// Which loopback network an address is of.
#[derive(Clone, Copy, PartialEq, Eq, Structural, Debug)]
pub enum Loopback {
    V4,
    V6,
}

/// The address that the gateway's table of users files the probe under. The probe talks to the
/// gateway from this machine, so a loopback URL means `127.0.0.1` or `::1`; `loopback` says whether the
/// host of the URL is a loopback address. None: the URL names a host.
pub fn probe_user_of(gate_url: &str, loopback: Option<Loopback>) -> (r: Option<String>)
    ensures
        opt_view(r) == (if host_of(gate_url@) == "localhost"@ {
            Some("127.0.0.1"@)
        } else {
            match loopback {
                Some(Loopback::V4) => Some("127.0.0.1"@),
                Some(Loopback::V6) => Some("::1"@),
                None => None,
            }
        }),
{
    if same(gate_host(gate_url).as_str(), "localhost") {
        return Some("127.0.0.1".to_owned());
    }
    match loopback {
        Some(Loopback::V4) => Some("127.0.0.1".to_owned()),
        Some(Loopback::V6) => Some("::1".to_owned()),
        None => None,
    }
}

/// The host that the gateway's log masks: that of its URL, with `localhost` as its address.
pub open spec fn log_host(url: Seq<char>) -> Seq<char> {
    let a = before_slash(behind_scheme(url, false));
    let h = if a.len() > 0 && a[0] == '[' {
        let v6 = a.drop_first();
        v6.take(first_index(v6, ']'))
    } else if last_colon(a) >= 0 {
        a.take(last_colon(a))
    } else {
        a
    };
    if crate::text::lowered(h) == "localhost"@ {
        "127.0.0.1"@
    } else {
        h
    }
}

/// The host that the gateway's log masks: that of its URL, with `localhost` as its address.
pub fn probe_ip_of(gate_url: &str) -> (r: String)
    ensures
        r@ == log_host(gate_url@),
{
    let a = authority(gate_url, false);
    let v = chars_of(a.as_str());
    assert(v@.subrange(0, v@.len() as int) =~= v@);
    let h: String = if v.len() > 0 && v[0] == '[' {
        let k: usize = find_from(&v, ']', 1);
        assert(v@.skip(1) =~= v@.drop_first());
        let t = string_of(&v, 1, k);
        assert(t@ =~= v@.drop_first().take(k - 1));
        t
    } else {
        match find_last_colon(&v) {
            Some(i) => {
                let t = string_of(&v, 0, i);
                assert(t@ =~= v@.take(i as int));
                t
            },
            None => a,
        }
    };
    if same(crate::text::lower(h.as_str()).as_str(), "localhost") {
        "127.0.0.1".to_owned()
    } else {
        h
    }
}

// ------------------------------------------------------ what a request is read as

/// The character that writes a hexadecimal digit.
pub open spec fn hex_char(n: int) -> u8 {
    if n < 10 {
        (48 + n) as u8
    } else {
        (55 + n) as u8
    }
}

/// Whatever byte is escaped, it is read back, and so are a plus sign as a space and every other byte
/// as itself; what follows is read as it would be alone.
pub proof fn law_what_is_escaped_is_read_back(x: u8, rest: Seq<u8>)
    ensures
        unescaped(seq![37u8, hex_char(x as int / 16), hex_char(x as int % 16)] + rest) == seq![x]
            + unescaped(rest),
        unescaped(seq![43u8] + rest) == seq![32u8] + unescaped(rest),
        x != 37 && x != 43 ==> unescaped(seq![x] + rest) == seq![x] + unescaped(rest),
        unescaped(Seq::empty()) == Seq::<u8>::empty(),
{
    let b = seq![37u8, hex_char(x as int / 16), hex_char(x as int % 16)] + rest;
    assert(b.skip(3) =~= rest);
    assert(hex_pair(b[1], b[2]) == Some(x as int));
    assert((seq![43u8] + rest).skip(1) =~= rest);
    assert((seq![x] + rest).skip(1) =~= rest);
}

/// A hexadecimal digit may be written large or small.
pub proof fn law_hex_digits_have_two_cases(n: int)
    requires
        10 <= n < 16,
    ensures
        hex_value((55 + n) as u8) == Some(n),
        hex_value((87 + n) as u8) == Some(n),
{
}

/// A URL comes apart at its first question mark, and a parameter at its first equals sign: what stands
/// behind may hold more of them.
pub proof fn law_a_url_comes_apart(a: Seq<char>, b: Seq<char>)
    ensures
        !a.contains('?') ==> query_of(a + seq!['?'] + b) == b && query_of(a).len() == 0,
        !a.contains('=') ==> raw_name(a + seq!['='] + b) == a && raw_value(a + seq!['='] + b) == b
            && raw_name(a) == a && raw_value(a).len() == 0,
{
    let n = a.len() as int;
    if !a.contains('?') {
        let s = a + seq!['?'] + b;
        assert forall|j: int| 0 <= j < n implies a[j] != '?' by {
            assert(a.contains(a[j]));
        }
        crate::text::lemma_first_index_is(s, '?', n);
        crate::text::lemma_first_index_is(a, '?', n);
        assert(s.skip(n + 1) =~= b);
    }
    if !a.contains('=') {
        let s = a + seq!['='] + b;
        assert forall|j: int| 0 <= j < n implies a[j] != '=' by {
            assert(a.contains(a[j]));
        }
        crate::text::lemma_first_index_is(s, '=', n);
        crate::text::lemma_first_index_is(a, '=', n);
        assert(s.skip(n + 1) =~= b);
        assert(s.take(n) =~= a);
        assert(a.take(n) =~= a);
    }
}

/// Of two parameters of one name the later counts; one without a name is no parameter, and changes
/// none.
pub proof fn law_the_later_parameter_counts(parts: Seq<Seq<char>>, part: Seq<char>, name: Seq<char>)
    ensures
        ({
            let before = map_of(pairs_of(parts));
            let after = map_of(pairs_of(parts.push(part)));
            let own = decoded(raw_name(part));
            &&& raw_name(part).len() == 0 ==> after == before
            &&& raw_name(part).len() > 0 ==> after.dom().contains(own) && after[own] == decoded(
                raw_value(part),
            )
            &&& raw_name(part).len() > 0 && name != own ==> (after.dom().contains(name)
                <==> before.dom().contains(name)) && (before.dom().contains(name) ==> after[name]
                == before[name])
        }),
{
    assert(parts.push(part).drop_last() =~= parts);
    if raw_name(part).len() > 0 {
        assert(pairs_of(parts.push(part)).drop_last() =~= pairs_of(parts));
    }
}

/// A request that names no range asks for an hour, whatever is read elsewhere; one that names a range
/// gets that range, and is refused where it is none.
pub proof fn law_a_range_is_the_one_asked_for(q: Map<Seq<char>, Seq<char>>, parsed: Option<i64>)
    ensures
        !q.dom().contains("range"@) ==> asked_range(q, parsed) == Ok::<int, (int, Seq<char>)>(3600),
        q.dom().contains("range"@) && parsed is Some ==> asked_range(q, parsed) == Ok::<
            int,
            (int, Seq<char>),
        >(parsed->0 as int),
        q.dom().contains("range"@) && parsed is None ==> asked_range(q, parsed) is Err
            && asked_range(q, parsed)->Err_0.0 == 400,
{
}

/// A list of metrics is read part by part, in its order; a part of white space alone names none.
pub proof fn law_metrics_are_read_in_their_order(parts: Seq<Seq<char>>, part: Seq<char>)
    ensures
        trimmed_parts(Seq::empty()).len() == 0,
        trimmed(part).len() > 0 ==> trimmed_parts(parts.push(part)) == trimmed_parts(parts).push(
            trimmed(part),
        ),
        trimmed(part).len() == 0 ==> trimmed_parts(parts.push(part)) == trimmed_parts(parts),
{
    assert(parts.push(part).drop_last() =~= parts);
}

/// A request for series without a metric is answered with the list; with metrics, as many as are
/// allowed, a range and a step that can be read, exactly those are read; and every other is refused as
/// one that cannot be understood.
pub proof fn law_series_are_read_as_asked(
    q: Map<Seq<char>, Seq<char>>,
    range: Option<i64>,
    step: Option<i64>,
)
    ensures
        ({
            let asked = series_asked(q, range, step);
            let metrics = asked_metrics(q);
            let open = !q.dom().contains("step"@) || q["step"@] == "auto"@ || q["step"@].len() == 0;
            &&& asked is List <==> metrics.len() == 0
            &&& asked is Read <==> 0 < metrics.len() <= 128 && (q.dom().contains("range"@) ==> range
                is Some) && (!open ==> step is Some)
            &&& (asked matches SeriesView::Read(m, r, s) ==> {
                &&& m == metrics
                &&& r == (if q.dom().contains("range"@) {
                    range->0 as int
                } else {
                    3600
                })
                &&& s is None <==> open
                &&& !open ==> s == step
            })
            &&& (asked matches SeriesView::Reject(e) ==> e.0 == 400)
        }),
{
}

/// The probes are read for their own series and for no other. The samples are read only where a metric
/// has a value under a minute and the tier is that of the samples; what is left comes from rows of the
/// tier's own length, and from minutes where the samples would do but the metric has none.
pub proof fn law_a_metric_is_read_where_it_is(tier: Tier, m: MetricFacts)
    ensures
        metric_source(tier, m) is Probes <==> m.probe,
        metric_source(tier, m) is Samples <==> !m.probe && tier == Tier::Raw && !m.minute_native,
        metric_source(tier, m) matches MetricRead::Samples(known) ==> known == m.recorded,
        !m.probe && tier == Tier::M10 ==> metric_source(tier, m) == MetricRead::Rollup(600),
        !m.probe && tier == Tier::M1 ==> metric_source(tier, m) == MetricRead::Rollup(60),
        !m.probe && tier == Tier::Raw && m.minute_native ==> metric_source(tier, m)
            == MetricRead::Rollup(60),
{
}

/// Of the rows whose minute a bucket starts in, the last one that has a value gives the bucket its own.
pub proof fn law_the_last_row_of_a_minute_counts<T>(
    start: int,
    step: int,
    rows: Seq<(i64, Option<T>)>,
    i: int,
    j: int,
)
    requires
        0 <= j < rows.len(),
        rows[j].1 is Some,
        rows[j].0 <= start + i * step < rows[j].0 + 60,
        forall|k: int|
            j < k < rows.len() && (#[trigger] rows[k]).1 is Some ==> start + i * step < rows[k].0
                || start + i * step >= rows[k].0 + 60,
    ensures
        bucket_value(start, step, rows, i) == rows[j].1,
    decreases rows.len(),
{
    if j < rows.len() - 1 {
        let rest = rows.drop_last();
        let last = rows[rows.len() - 1];
        assert(!(last.1 is Some && in_minute(start, step, i, last.0 as int)));
        assert forall|k: int| j < k < rest.len() && (#[trigger] rest[k]).1 is Some implies start + i
            * step < rest[k].0 || start + i * step >= rest[k].0 + 60 by {
            assert(rest[k] == rows[k]);
        }
        law_the_last_row_of_a_minute_counts(start, step, rest, i, j);
    }
}

/// A row is drawn in the column whose time it has, one from before the picture in the first column and
/// one from after it in the last.
pub proof fn law_a_row_is_drawn_in_its_column(ts: int, start: int, step: int, cols: int)
    requires
        step > 0,
        cols > 0,
    ensures
        ({
            let c = column(ts, start, step, cols);
            &&& 0 <= c < cols
            &&& ts < start ==> c == 0
            &&& ts >= start + cols * step ==> c == cols - 1
            &&& start <= ts < start + cols * step ==> start + c * step <= ts < start + (c + 1) * step
        }),
{
    let d = ts - start;
    if d >= 0 {
        vstd::arithmetic::div_mod::lemma_fundamental_div_mod(d, step);
        vstd::arithmetic::div_mod::lemma_div_pos_is_pos(d, step);
        let (q, m) = (d / step, d % step);
        assert(q * step <= d < (q + 1) * step) by (nonlinear_arith)
            requires
                d == step * q + m,
                0 <= m < step,
        ;
        if q >= cols {
            assert(cols * step <= q * step) by (nonlinear_arith)
                requires
                    q >= cols,
                    step > 0,
            ;
        } else {
            assert((q + 1) * step <= cols * step) by (nonlinear_arith)
                requires
                    q + 1 <= cols,
                    step > 0,
            ;
        }
    }
}

/// Up to an hour the gateway's samples are read one by one, from the first instant of the range to now
/// and nothing before it; a longer range is read in buckets of ten minutes, from the start of one.
pub proof fn law_a_short_range_is_read_exactly(now: int, range: int, r: GatewayRead)
    requires
        gateway_rows(now, range, r),
    ensures
        r.range == range,
        r.samples <==> range <= 3600,
        r.samples ==> r.from == now - range + 1,
        !r.samples ==> r.from as int % 600 == 0 && r.from <= now - range,
        r.probes_from == now - range + 1,
{
    if range > 3600 {
        let x = now - range;
        vstd::arithmetic::div_mod::lemma_fundamental_div_mod(x, 600);
        assert(bucket_start(x, 600) == 600 * (x / 600));
    }
}

/// The rows of the document are an hour, a day, a week, today and all time, each under its name and of
/// its own length: today since midnight, all time since the first that is known, and none of a
/// negative length.
pub proof fn law_the_document_has_its_spans(
    now: int,
    midnight: int,
    ledger_since: i64,
    first_token: Option<i64>,
    r: Seq<TokenRow>,
)
    requires
        are_token_rows(now, midnight, ledger_since, first_token, r),
    ensures
        r.len() == 5,
        r[0].name@ == "1h"@ && r[0].secs == 60 * 60,
        r[1].name@ == "24h"@ && r[1].secs == 24 * 60 * 60,
        r[2].name@ == "7d"@ && r[2].secs == 7 * 24 * 60 * 60,
        r[3].name@ == "today"@,
        midnight <= now ==> r[3].secs == now - midnight,
        now < midnight ==> r[3].secs == 0,
        r[4].name@ == "all"@,
        r[4].secs >= 0,
        forall|t: i64|
            t <= now && #[trigger] is_first_known(t, ledger_since, first_token) ==> r[4].secs == now
                - t,
        forall|i: int| 0 <= i < 4 ==> (#[trigger] r[i]).read is Span && r[i].read->Span_0.secs
            == r[i].secs,
        r[4].read is Ledger,
{
    let spans = token_spans(now, midnight);
    assert(r[0].name@ == spans[0].0);
    assert(r[1].name@ == spans[1].0);
    assert(r[2].name@ == spans[2].0);
    assert(r[3].name@ == spans[3].0);
    assert(r[4] == r.last());
}

/// Whether an instant is the first that anything is known from: where the ledger begins, or the first
/// token of the history where that is earlier or there is no ledger.
pub open spec fn is_first_known(t: i64, ledger_since: i64, first_token: Option<i64>) -> bool {
    ||| first_token is None && t == ledger_since
    ||| first_token is Some && ledger_since == 0 && t == first_token->0
    ||| first_token is Some && ledger_since != 0 && (t == ledger_since || t == first_token->0) && t
        <= ledger_since && t <= first_token->0
}

/// The total of all time begins with the first that is known. Without a ledger no history is added to
/// one; with a ledger, every bucket of ten minutes that had ended when it began is.
pub proof fn law_all_time_begins_with_the_first_known(
    ledger_since: i64,
    first_token: Option<i64>,
    bucket: int,
)
    requires
        bucket >= 0,
    ensures
        is_first_known(all_time_from(ledger_since, first_token).0, ledger_since, first_token),
        all_time_from(ledger_since, first_token).1 is Some <==> ledger_since > 0,
        ledger_since > 0 ==> (bucket < all_time_from(ledger_since, first_token).1->0 <==> bucket + 600
            <= ledger_since),
{
}

/// The requests of a span are counted from their own beginning only where that is later, by more than
/// a row, than both the span and its first token.
pub proof fn law_late_requests_say_since_when(
    now: int,
    secs: int,
    tier: int,
    first_request: i64,
    first_token: i64,
)
    ensures
        ({
            let r = requests_from(now, secs, tier, Some(first_request), Some(first_token));
            &&& r is Some <==> first_request - tier > now - secs && first_request - tier > first_token
            &&& r is Some ==> r->0 == first_request
            &&& requests_from(now, secs, tier, None, Some(first_token)) is None
            &&& requests_from(now, secs, tier, Some(first_request), None) is None
        }),
{
}

proof fn lemma_last_colon_is(s: Seq<char>, i: int)
    requires
        0 <= i < s.len(),
        s[i] == ':',
        forall|j: int| i < j < s.len() ==> s[j] != ':',
    ensures
        last_colon(s) == i,
    decreases s.len(),
{
    if i < s.len() - 1 {
        assert(s.last() != ':');
        lemma_last_colon_is(s.drop_last(), i);
    }
}

// What stands between the scheme and the first slash behind it.
proof fn lemma_authority(scheme: Seq<char>, auth: Seq<char>, rest: Seq<char>, cut: bool)
    requires
        !scheme.contains(':'),
        !auth.contains('/'),
        auth.len() > 0,
        auth.last() != ':',
    ensures
        before_slash(behind_scheme(scheme + "://"@ + auth + seq!['/'] + rest, cut)) == auth,
{
    reveal_strlit("://");
    let url = scheme + "://"@ + auth + seq!['/'] + rest;
    let p = "://"@;
    let n = scheme.len() as int;
    assert(url.subrange(n, n + 3) =~= p);
    assert(crate::text::stands_at(url, p, n));
    crate::text::lemma_first_at(url, p, 0);
    let i = first_at(url, p, 0);
    if i != n {
        assert(0 <= i < n);
        assert(url.subrange(i, i + 3)[0] == ':');
        assert(scheme[i] == ':');
    }
    let tail = url.skip(n + 3);
    assert(tail =~= auth + seq!['/'] + rest);
    let k = auth.len() as int;
    assert forall|j: int| 0 <= j < k implies tail[j] != '/' by {
        assert(auth.contains(auth[j]));
    }
    crate::text::lemma_first_at(tail, p, 0);
    let j = first_at(tail, p, 0);
    let kept = behind_scheme(url, cut);
    if cut && j >= 0 {
        let found = tail.subrange(j, j + 3);
        assert(found[0] == ':' && found[1] == '/');
        assert(tail[j] == ':' && tail[j + 1] == '/');
        assert(tail[k] == '/');
        assert(tail[k - 1] == auth.last());
        assert(j > k);
        assert(kept =~= tail.take(j));
    }
    crate::text::lemma_first_index_is(kept, '/', k);
    assert(kept.take(k) =~= auth);
}

/// The host of a URL is what stands between its scheme and its port, whatever the path is; the
/// brackets of an address are not of it.
pub proof fn law_the_host_stands_before_the_port(
    scheme: Seq<char>,
    host: Seq<char>,
    port: u16,
    rest: Seq<char>,
)
    requires
        !scheme.contains(':'),
        host.len() > 0,
        !host.contains('/'),
        !host.contains('['),
        !host.contains(']'),
    ensures
        ({
            let named = scheme + "://"@ + (host + seq![':'] + dec(port as nat)) + seq!['/'] + rest;
            let bracketed = scheme + "://"@ + (seq!['['] + host + seq![']', ':'] + dec(port as nat))
                + seq!['/'] + rest;
            &&& host_of(named) == host
            &&& host_of(bracketed) == host
            &&& crate::text::lowered(host) != "localhost"@ ==> log_host(named) == host && log_host(
                bracketed,
            ) == host
            &&& crate::text::lowered(host) == "localhost"@ ==> log_host(named) == "127.0.0.1"@
        }),
{
    let digits = dec(port as nat);
    crate::text::law_decimal_reads_back(port as nat);
    assert forall|i: int| 0 <= i < digits.len() implies digits[i] != ':' && digits[i] != '/' by {
        assert(crate::text::is_digit(digits[i]));
    }
    let n = host.len() as int;
    assert forall|i: int| 0 <= i < n implies host[i] != '/' && host[i] != '[' && host[i] != ']' by {
        assert(host.contains(host[i]));
    }
    // a name
    let a = host + seq![':'] + digits;
    assert forall|i: int| 0 <= i < a.len() implies a[i] != '/' by {
        if i > n {
            assert(a[i] == digits[i - n - 1]);
        }
    }
    assert(a.last() == digits.last());
    assert(digits.last() == digits[digits.len() - 1]);
    lemma_authority(scheme, a, rest, true);
    lemma_authority(scheme, a, rest, false);
    assert forall|j: int| n < j < a.len() implies a[j] != ':' by {
        assert(a[j] == digits[j - n - 1]);
    }
    lemma_last_colon_is(a, n);
    assert(a.skip(n + 1) =~= digits);
    assert(a.take(n) =~= host);
    assert(host.last() == host[n - 1]);
    assert(a[0] == host[0]);
    // an address in brackets
    let b = seq!['['] + host + seq![']', ':'] + digits;
    assert forall|i: int| 0 <= i < b.len() implies b[i] != '/' by {
        if i > n + 2 {
            assert(b[i] == digits[i - n - 3]);
        } else if 0 < i <= n {
            assert(b[i] == host[i - 1]);
        }
    }
    assert(b.last() == digits.last());
    lemma_authority(scheme, b, rest, true);
    lemma_authority(scheme, b, rest, false);
    assert forall|j: int| n + 2 < j < b.len() implies b[j] != ':' by {
        assert(b[j] == digits[j - n - 3]);
    }
    assert(b[n + 2] == ':');
    lemma_last_colon_is(b, n + 2);
    assert(b.skip(n + 3) =~= digits);
    let bare = b.take(n + 2);
    assert(bare =~= seq!['['] + host + seq![']']);
    assert(bare.drop_first() =~= host + seq![']']);
    let open = host + seq![']'];
    assert(open[0] == host[0]);
    assert(without_open(open) == open);
    assert(open.drop_last() =~= host);
    assert(without_close(host) == host);
    let v6 = b.drop_first();
    assert forall|j: int| 0 <= j < n implies v6[j] != ']' by {
        assert(v6[j] == host[j]);
    }
    assert(v6[n] == ']');
    crate::text::lemma_first_index_is(v6, ']', n);
    assert(v6.take(n) =~= host);
}

/// A request for a histogram is answered for a metric that is known and a range that can be read, cut
/// to what is kept; every other is refused.
pub proof fn law_a_histogram_is_of_a_known_metric(
    q: Params,
    known: bool,
    parsed: Option<i64>,
    keep: Retention,
    r: Result<(String, i64), (u16, String)>,
)
    requires
        call_ensures(hist, (&q, known, parsed, keep), r),
    ensures
        r is Ok <==> known && q@.dom().contains("metric"@) && (q@.dom().contains("range"@) ==> parsed
            is Some),
        r matches Ok(a) ==> {
            &&& a.0@ == q@["metric"@]
            &&& a.1 <= keep.m10
            &&& q@.dom().contains("range"@) ==> a.1 <= parsed->0 && (a.1 == parsed->0 || a.1
                == keep.m10)
        },
        r matches Err(e) ==> e.0 == 400,
{
}

/// A probe is a point of one series where it is a reading and of the others where it is not; its speed
/// is a point only where it has one. The share of cached tokens is taken from when both counters exist
/// and not from before the span.
pub proof fn law_a_probe_is_a_point_of_its_own_series(
    reading: bool,
    has_speed: bool,
    p: (bool, bool, bool),
    week: Option<i64>,
    all_since: i64,
    since: Option<i64>,
)
    requires
        call_ensures(probe_points, (reading, has_speed), p),
        call_ensures(all_requests_since, (week, all_since), since),
    ensures
        p.0 ==> reading && has_speed && !p.1 && !p.2,
        reading && has_speed ==> p.0,
        p.1 <==> !reading,
        p.2 <==> !reading && has_speed,
        since is Some <==> week is Some && week->0 - 600 > all_since,
        since is Some ==> since == week,
{
}

/// The probe is filed under the loopback address of its network where the gateway's URL is one of this
/// machine, and `localhost` is that of the older network; else it has no address.
pub proof fn law_the_probe_is_filed_under_loopback(
    url: &str,
    loopback: Option<Loopback>,
    r: Option<String>,
)
    requires
        call_ensures(probe_user_of, (url, loopback), r),
    ensures
        r is None <==> host_of(url@) != "localhost"@ && loopback is None,
        r matches Some(a) ==> a@ == "127.0.0.1"@ || a@ == "::1"@,
        host_of(url@) == "localhost"@ ==> r->0@ == "127.0.0.1"@,
        host_of(url@) != "localhost"@ && loopback == Some(Loopback::V6) ==> r->0@ == "::1"@,
{
}

} // verus!
