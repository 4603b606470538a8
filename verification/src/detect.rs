//! Finding the LLM servers of this machine.

use crate::collect::{http_get, Fetched};
use crate::text::{
    after_last, behind_last, dec, dec_u64, head, join, joined, lemma_text_le_total,
    lemma_text_le_trans, not_behind, opt_view, parse_int, parse_u64, same, take, text_le, views,
};
use vstd::prelude::*;
use vstd::string::*;
use vstd::utf8::encode_utf8;

verus! {

/// The kinds of engine that can be recognised.
#[derive(Clone, Copy, PartialEq, Eq, Structural, Debug)]
pub enum EngineKind {
    Sglang,
    Vllm,
    LlamaCpp,
    Ollama,
    LmStudio,
    Tgi,
    OpenAi,
}

/// How many ports are asked at most.
pub const MAX_PORTS: usize = 48;

// ------------------------------------------------------------------------ ports

/// The ports in their order, each once, without those of `skip`.
pub open spec fn once(ports: Seq<u16>, skip: Seq<u16>) -> Seq<u16>
    decreases ports.len(),
{
    if ports.len() == 0 {
        Seq::empty()
    } else {
        let before = once(ports.drop_last(), skip);
        let p = ports.last();
        if before.contains(p) || skip.contains(p) {
            before
        } else {
            before.push(p)
        }
    }
}

/// Whether a default port is worth asking: it is listening, or it is published, or nothing is known
/// of what listens.
pub open spec fn worth_asking(listening: Seq<u16>, docker: Seq<u16>, p: u16) -> bool {
    listening.len() == 0 || listening.contains(p) || docker.contains(p)
}

/// The ports worth asking, most likely first: the defaults, the published ones, and the others that
/// listen above the system's own.
pub open spec fn ports_in_line(common: Seq<u16>, listening: Seq<u16>, docker: Seq<u16>) -> Seq<u16> {
    common.filter(|p: u16| worth_asking(listening, docker, p)) + docker + listening.filter(
        |p: u16| p >= 1024,
    )
}

/// The ports that are asked.
pub open spec fn asked_ports(
    common: Seq<u16>,
    listening: Seq<u16>,
    docker: Seq<u16>,
    skip: Seq<u16>,
) -> Seq<u16> {
    let all = once(ports_in_line(common, listening, docker), skip);
    if all.len() <= MAX_PORTS {
        all
    } else {
        all.take(MAX_PORTS as int)
    }
}

/// Whether a port is in a list.
pub fn has_port(ports: &Vec<u16>, p: u16) -> (r: bool)
    ensures
        r == ports@.contains(p),
{
    let mut i: usize = 0;
    while i < ports.len()
        invariant
            i <= ports@.len(),
            forall|j: int| 0 <= j < i ==> ports@[j] != p,
        decreases ports@.len() - i,
    {
        if ports[i] == p {
            return true;
        }
        i += 1;
    }
    false
}

fn add_port(out: &mut Vec<u16>, skip: &Vec<u16>, p: u16, Ghost(line): Ghost<Seq<u16>>)
    requires
        old(out)@ == once(line, skip@),
    ensures
        final(out)@ == once(line.push(p), skip@),
{
    assert(line.push(p).drop_last() =~= line);
    if !has_port(out, p) && !has_port(skip, p) {
        out.push(p);
    }
}

/// The ports worth asking, most likely first. Those of `skip` are this collector's own.
pub fn candidate_ports(
    common: &Vec<u16>,
    listening: &Vec<u16>,
    docker: &Vec<u16>,
    skip: &Vec<u16>,
) -> (r: Vec<u16>)
    ensures
        r@ == asked_ports(common@, listening@, docker@, skip@),
{
    let ghost worth = |p: u16| worth_asking(listening@, docker@, p);
    let ghost high = |p: u16| p >= 1024;
    let mut out: Vec<u16> = Vec::new();
    let ghost mut line: Seq<u16> = Seq::empty();
    let mut i: usize = 0;
    proof {
        reveal(Seq::filter);
    }
    while i < common.len()
        invariant
            i <= common@.len(),
            worth == (|p: u16| worth_asking(listening@, docker@, p)),
            line == common@.take(i as int).filter(worth),
            out@ == once(line, skip@),
        decreases common@.len() - i,
    {
        proof {
            reveal(Seq::filter);
            assert(common@.take(i + 1).drop_last() =~= common@.take(i as int));
        }
        let p: u16 = common[i];
        if listening.len() == 0 || has_port(listening, p) || has_port(docker, p) {
            add_port(&mut out, skip, p, Ghost(line));
            proof {
                line = line.push(p);
            }
        }
        i += 1;
    }
    assert(common@.take(common@.len() as int) =~= common@);
    let ghost first = line;
    let mut i: usize = 0;
    assert(first + docker@.take(0) =~= first);
    while i < docker.len()
        invariant
            i <= docker@.len(),
            line == first + docker@.take(i as int),
            out@ == once(line, skip@),
        decreases docker@.len() - i,
    {
        let p: u16 = docker[i];
        add_port(&mut out, skip, p, Ghost(line));
        proof {
            assert(first + docker@.take(i + 1) =~= line.push(p));
            line = line.push(p);
        }
        i += 1;
    }
    assert(docker@.take(docker@.len() as int) =~= docker@);
    let ghost second = line;
    let mut i: usize = 0;
    proof {
        reveal(Seq::filter);
        assert(second + listening@.take(0).filter(high) =~= second);
    }
    while i < listening.len()
        invariant
            i <= listening@.len(),
            high == (|p: u16| p >= 1024),
            line == second + listening@.take(i as int).filter(high),
            out@ == once(line, skip@),
        decreases listening@.len() - i,
    {
        proof {
            reveal(Seq::filter);
            assert(listening@.take(i + 1).drop_last() =~= listening@.take(i as int));
        }
        let p: u16 = listening[i];
        if p >= 1024 {
            add_port(&mut out, skip, p, Ghost(line));
            proof {
                assert(second + listening@.take(i + 1).filter(high) =~= line.push(p));
                line = line.push(p);
            }
        }
        i += 1;
    }
    assert(listening@.take(listening@.len() as int) =~= listening@);
    if out.len() > MAX_PORTS {
        out.truncate(MAX_PORTS);
    }
    out
}

proof fn lemma_once(ports: Seq<u16>, skip: Seq<u16>)
    ensures
        once(ports, skip).no_duplicates(),
        forall|i: int|
            0 <= i < once(ports, skip).len() ==> !skip.contains(#[trigger] once(ports, skip)[i])
                && ports.contains(once(ports, skip)[i]),
    decreases ports.len(),
{
    if ports.len() > 0 {
        let rest = ports.drop_last();
        lemma_once(rest, skip);
        let before = once(rest, skip);
        let after = once(ports, skip);
        assert forall|i: int| 0 <= i < after.len() implies !skip.contains(#[trigger] after[i])
            && ports.contains(after[i]) by {
            if i < before.len() {
                assert(after[i] == before[i]);
                let k = choose|k: int| 0 <= k < rest.len() && rest[k] == before[i];
                assert(ports[k] == after[i]);
            } else {
                assert(ports[ports.len() - 1] == after[i]);
            }
        }
    }
}

/// No port is asked twice, none of the collector's own is asked, and never too many.
pub proof fn law_ports_are_asked_once(
    common: Seq<u16>,
    listening: Seq<u16>,
    docker: Seq<u16>,
    skip: Seq<u16>,
)
    ensures
        ({
            let r = asked_ports(common, listening, docker, skip);
            &&& r.no_duplicates()
            &&& r.len() <= MAX_PORTS
            &&& forall|i: int|
                0 <= i < r.len() ==> !skip.contains(#[trigger] r[i]) && ports_in_line(
                    common,
                    listening,
                    docker,
                ).contains(r[i])
        }),
{
    lemma_once(ports_in_line(common, listening, docker), skip);
}

proof fn lemma_once_has(ports: Seq<u16>, skip: Seq<u16>, p: u16)
    ensures
        once(ports, skip).contains(p) <==> ports.contains(p) && !skip.contains(p),
    decreases ports.len(),
{
    lemma_once(ports, skip);
    if ports.len() > 0 {
        let rest = ports.drop_last();
        lemma_once_has(rest, skip, p);
        let before = once(rest, skip);
        let after = once(ports, skip);
        if ports.contains(p) && !skip.contains(p) {
            let k = choose|k: int| 0 <= k < ports.len() && ports[k] == p;
            if k < rest.len() {
                assert(rest[k] == p);
                let a = choose|a: int| 0 <= a < before.len() && before[a] == p;
                assert(after[a] == p);
            } else if !before.contains(p) {
                assert(after.last() == p);
            } else {
                let a = choose|a: int| 0 <= a < before.len() && before[a] == p;
                assert(after[a] == p);
            }
        }
        if after.contains(p) {
            let a = choose|a: int| 0 <= a < after.len() && after[a] == p;
            assert(!skip.contains(after[a]) && ports.contains(after[a]));
        }
    } else {
        assert(!once(ports, skip).contains(p));
    }
}

/// A port is asked exactly where it is not the collector's own and is one that a container publishes, or
/// one that listens above the system's own, or a usual one that listens, is published, or of which
/// nothing is known; as long as there are not too many.
pub proof fn law_a_port_is_asked_where_a_server_may_be(
    common: Seq<u16>,
    listening: Seq<u16>,
    docker: Seq<u16>,
    skip: Seq<u16>,
    p: u16,
)
    ensures
        ({
            let r = asked_ports(common, listening, docker, skip);
            let may = !skip.contains(p) && (docker.contains(p) || (listening.contains(p) && p >= 1024) || (
            common.contains(p) && (listening.len() == 0 || listening.contains(p) || docker.contains(p))));
            &&& r.contains(p) ==> may
            &&& may && !r.contains(p) ==> r.len() == 48
        }),
{
    let worth = |p: u16| worth_asking(listening, docker, p);
    let high = |p: u16| p >= 1024;
    let a = common.filter(worth);
    let b = listening.filter(high);
    let line = ports_in_line(common, listening, docker);
    assert(line == a + docker + b);
    common.filter_lemma(worth);
    listening.filter_lemma(high);
    lemma_filter_has(common, worth, p);
    lemma_filter_has(listening, high, p);
    assert(line.contains(p) <==> a.contains(p) || docker.contains(p) || b.contains(p)) by {
        if a.contains(p) {
            let k = choose|k: int| 0 <= k < a.len() && a[k] == p;
            assert(line[k] == p);
        }
        if docker.contains(p) {
            let k = choose|k: int| 0 <= k < docker.len() && docker[k] == p;
            assert(line[a.len() + k] == p);
        }
        if b.contains(p) {
            let k = choose|k: int| 0 <= k < b.len() && b[k] == p;
            assert(line[a.len() + docker.len() + k] == p);
        }
        if line.contains(p) {
            let k = choose|k: int| 0 <= k < line.len() && line[k] == p;
            if k < a.len() {
                assert(a[k] == p);
            } else if k < a.len() + docker.len() {
                assert(docker[k - a.len()] == p);
            } else {
                assert(b[k - a.len() - docker.len()] == p);
            }
        }
    }
    lemma_once_has(line, skip, p);
    let all = once(line, skip);
    let r = asked_ports(common, listening, docker, skip);
    if r.contains(p) {
        let k = choose|k: int| 0 <= k < r.len() && r[k] == p;
        assert(all[k] == p);
    }
}

proof fn lemma_filter_has(s: Seq<u16>, f: spec_fn(u16) -> bool, p: u16)
    ensures
        s.filter(f).contains(p) <==> s.contains(p) && f(p),
    decreases s.len(),
{
    reveal(Seq::filter);
    if s.len() > 0 {
        let rest = s.drop_last();
        lemma_filter_has(rest, f, p);
        let a = rest.filter(f);
        let b = s.filter(f);
        if s.contains(p) && f(p) {
            let k = choose|k: int| 0 <= k < s.len() && s[k] == p;
            if k < rest.len() {
                assert(rest[k] == p);
                let m = choose|m: int| 0 <= m < a.len() && a[m] == p;
                assert(b[m] == p);
            } else {
                assert(b.last() == p);
            }
        }
        if b.contains(p) {
            let m = choose|m: int| 0 <= m < b.len() && b[m] == p;
            if m < a.len() {
                assert(a[m] == p);
                let k = choose|k: int| 0 <= k < rest.len() && rest[k] == p;
                assert(s[k] == p);
            } else {
                assert(s[s.len() - 1] == p);
            }
        }
    } else {
        assert(!s.filter(f).contains(p));
    }
}

/// The ports keep their order: the usual ones come before those that are published, those before the
/// others that listen; and a port that stands in the line twice is asked in its first place.
pub proof fn law_ports_keep_their_order(ports: Seq<u16>, skip: Seq<u16>, p: u16)
    ensures
        once(Seq::empty(), skip) == Seq::<u16>::empty(),
        once(ports.push(p), skip) == (if ports.contains(p) || skip.contains(p) {
            once(ports, skip)
        } else {
            once(ports, skip).push(p)
        }),
{
    lemma_once_has(ports, skip, p);
    assert(ports.push(p).drop_last() =~= ports);
}

/// The port behind the last colon of an address.
pub open spec fn port_of(addr: Seq<char>) -> Option<u16> {
    match parse_int(after_last(addr, ":"@), false) {
        Some(n) if n <= u16::MAX => Some(n as u16),
        _ => None,
    }
}

/// The ports of addresses, of those that have one.
pub open spec fn ports_of(listen: Seq<Seq<char>>) -> Seq<u16>
    decreases listen.len(),
{
    if listen.len() == 0 {
        Seq::empty()
    } else {
        let before = ports_of(listen.drop_last());
        match port_of(listen.last()) {
            Some(p) => before.push(p),
            None => before,
        }
    }
}

/// The ports of the collector's own listeners.
pub fn own_ports(listen: &Vec<String>) -> (r: Vec<u16>)
    ensures
        r@ == ports_of(views(listen@)),
{
    let mut out: Vec<u16> = Vec::new();
    let ghost all = views(listen@);
    let mut i: usize = 0;
    while i < listen.len()
        invariant
            i <= listen@.len(),
            all == views(listen@),
            out@ == ports_of(all.take(i as int)),
        decreases listen@.len() - i,
    {
        proof {
            assert(all.take(i + 1).drop_last() =~= all.take(i as int));
            assert(all.take(i + 1).last() == listen@[i as int]@);
        }
        if let Some(p) = parse_u64(behind_last(listen[i].as_str(), ":").as_str()) {
            if p <= 65535 {
                out.push(p as u16);
            }
        }
        i += 1;
    }
    assert(all.take(all.len() as int) =~= all);
    out
}

/// The ports below the range that the kernel hands out on its own, for a listener that must keep
/// its port: from the first up to before the second. None where that range starts so low that no
/// port is left.
pub fn port_band(ephemeral_lo: u16) -> (r: Option<(u16, u16)>)
    ensures
        ({
            let top: int = if ephemeral_lo < 30_000 {
                ephemeral_lo as int
            } else {
                30_000
            };
            let bottom: int = if top - 10_000 > 1024 {
                top - 10_000
            } else {
                1024
            };
            r == (if top > bottom {
                Some((bottom as u16, top as u16))
            } else {
                None::<(u16, u16)>
            })
        }),
{
    let top: u16 = if ephemeral_lo < 30_000 {
        ephemeral_lo
    } else {
        30_000
    };
    let low: u16 = top.saturating_sub(10_000);
    let bottom: u16 = if low > 1024 {
        low
    } else {
        1024
    };
    if top > bottom {
        Some((bottom, top))
    } else {
        None
    }
}

// ---------------------------------------------------------------------- ranking

/// A server that was found.
pub struct Found {
    pub kind: EngineKind,
    pub url: String,
    pub model: Option<String>,
}

/// A server that was found, as values.
pub open spec fn found_view(f: Found) -> (EngineKind, Seq<char>, Option<Seq<char>>) {
    (f.kind, f.url@, opt_view(f.model))
}

/// Servers that were found, as values.
pub open spec fn found_views(v: Seq<Found>) -> Seq<(EngineKind, Seq<char>, Option<Seq<char>>)> {
    v.map_values(|f: Found| found_view(f))
}

/// Whether one of the engines that are known by name serves this model, or none as it does.
pub open spec fn native_serves(
    found: Seq<(EngineKind, Seq<char>, Option<Seq<char>>)>,
    model: Option<Seq<char>>,
) -> bool {
    exists|i: int|
        0 <= i < found.len() && (#[trigger] found[i]).0 != EngineKind::OpenAi && found[i].2 == model
}

/// Whether a find is a server of its own: a plain OpenAI-compatible answer with the model of an
/// engine that is known by name is a gateway or proxy in front of it.
pub open spec fn is_server(found: Seq<(EngineKind, Seq<char>, Option<Seq<char>>)>, i: int) -> bool {
    found[i].0 != EngineKind::OpenAi || !native_serves(found, found[i].2)
}

/// Whether a find does not come behind another: engines known by name first, then those with a model
/// loaded, then by their URLs.
pub open spec fn rank_le(
    a: (EngineKind, Seq<char>, Option<Seq<char>>),
    b: (EngineKind, Seq<char>, Option<Seq<char>>),
) -> bool {
    let (ka, kb) = (a.0 == EngineKind::OpenAi, b.0 == EngineKind::OpenAi);
    let (ma, mb) = (a.2 is None, b.2 is None);
    if ka != kb {
        !ka
    } else if ma != mb {
        !ma
    } else {
        text_le(a.1, b.1)
    }
}

/// Whether finds stand in their order, and those of one rank in the order in which they were found.
pub open spec fn in_rank(
    found: Seq<(EngineKind, Seq<char>, Option<Seq<char>>)>,
    r: Seq<usize>,
) -> bool {
    forall|j: int, k: int|
        0 <= j < k < r.len() ==> rank_le(found[#[trigger] r[j] as int], found[#[trigger] r[k] as int])
            && (rank_le(found[r[k] as int], found[r[j] as int]) ==> r[j] < r[k])
}

fn not_after(a: &Found, b: &Found) -> (r: bool)
    ensures
        r == rank_le(found_view(*a), found_view(*b)),
{
    let ka = a.kind == EngineKind::OpenAi;
    let kb = b.kind == EngineKind::OpenAi;
    let ma = a.model.is_none();
    let mb = b.model.is_none();
    if ka != kb {
        !ka
    } else if ma != mb {
        !ma
    } else {
        not_behind(a.url.as_str(), b.url.as_str())
    }
}

proof fn lemma_rank_trans(
    a: (EngineKind, Seq<char>, Option<Seq<char>>),
    b: (EngineKind, Seq<char>, Option<Seq<char>>),
    c: (EngineKind, Seq<char>, Option<Seq<char>>),
)
    requires
        rank_le(a, b),
        rank_le(b, c),
    ensures
        rank_le(a, c),
{
    if text_le(a.1, b.1) && text_le(b.1, c.1) {
        lemma_text_le_trans(a.1, b.1, c.1);
    }
}

proof fn lemma_rank_total(
    a: (EngineKind, Seq<char>, Option<Seq<char>>),
    b: (EngineKind, Seq<char>, Option<Seq<char>>),
)
    ensures
        rank_le(a, b) || rank_le(b, a),
{
    lemma_text_le_total(a.1, b.1);
}

fn same_model(a: &Option<String>, b: &Option<String>) -> (r: bool)
    ensures
        r == (opt_view(*a) == opt_view(*b)),
{
    match a {
        Some(x) => match b {
            Some(y) => same(x.as_str(), y.as_str()),
            None => false,
        },
        None => b.is_none(),
    }
}

fn is_proxy(found: &Vec<Found>, i: usize) -> (r: bool)
    requires
        i < found@.len(),
    ensures
        r == !is_server(found_views(found@), i as int),
{
    let ghost all = found_views(found@);
    assert(all[i as int] == found_view(found@[i as int]));
    if found[i].kind != EngineKind::OpenAi {
        return false;
    }
    let mut j: usize = 0;
    while j < found.len()
        invariant
            i < found@.len(),
            j <= found@.len(),
            all == found_views(found@),
            found@[i as int].kind == EngineKind::OpenAi,
            forall|k: int|
                0 <= k < j ==> !((#[trigger] all[k]).0 != EngineKind::OpenAi && all[k].2
                    == all[i as int].2),
        decreases found@.len() - j,
    {
        assert(all[j as int] == found_view(found@[j as int]));
        assert(all[i as int] == found_view(found@[i as int]));
        if found[j].kind != EngineKind::OpenAi && same_model(&found[j].model, &found[i].model) {
            assert(native_serves(all, all[i as int].2));
            return true;
        }
        j += 1;
    }
    false
}

proof fn lemma_ranked_insert(
    found: Seq<(EngineKind, Seq<char>, Option<Seq<char>>)>,
    before: Seq<usize>,
    p: int,
    i: usize,
)
    requires
        0 <= p <= before.len(),
        in_rank(found, before),
        forall|k: int| 0 <= k < before.len() ==> (#[trigger] before[k]) < i,
        forall|k: int| 0 <= k < p ==> rank_le(found[#[trigger] before[k] as int], found[i as int]),
        p < before.len() ==> !rank_le(found[before[p] as int], found[i as int]),
    ensures
        in_rank(found, before.insert(p, i)),
{
    let after = before.insert(p, i);
    assert forall|k: int| p <= k < before.len() implies rank_le(
        found[i as int],
        found[#[trigger] before[k] as int],
    ) && !rank_le(found[before[k] as int], found[i as int]) by {
        lemma_rank_total(found[before[p] as int], found[i as int]);
        if k > p {
            assert(rank_le(found[before[p] as int], found[before[k] as int]));
            lemma_rank_trans(found[i as int], found[before[p] as int], found[before[k] as int]);
            if rank_le(found[before[k] as int], found[i as int]) {
                lemma_rank_trans(found[before[p] as int], found[before[k] as int], found[i as int]);
            }
        }
    }
    assert forall|j: int, k: int| 0 <= j < k < after.len() implies rank_le(
        found[#[trigger] after[j] as int],
        found[#[trigger] after[k] as int],
    ) && (rank_le(found[after[k] as int], found[after[j] as int]) ==> after[j] < after[k]) by {
        if j < p {
            assert(after[j] == before[j]);
        } else if j > p {
            assert(after[j] == before[j - 1]);
        }
        if k < p {
            assert(after[k] == before[k]);
        } else if k > p {
            assert(after[k] == before[k - 1]);
        }
    }
}

/// Whether `r` are the servers among what was found, each once, in their order.
pub open spec fn is_ranking(
    found: Seq<(EngineKind, Seq<char>, Option<Seq<char>>)>,
    r: Seq<usize>,
) -> bool {
    &&& in_rank(found, r)
    &&& r.no_duplicates()
    &&& forall|k: int| 0 <= k < r.len() ==> (#[trigger] r[k]) < found.len()
    &&& forall|i: int|
        0 <= i < found.len() ==> r.contains(i as usize) == #[trigger] is_server(found, i)
}

/// The servers among what was found, in the order in which they are watched. The first is the one
/// that this collector watches.
pub fn rank(found: &Vec<Found>) -> (r: Vec<usize>)
    ensures
        is_ranking(found_views(found@), r@),
{
    let ghost all = found_views(found@);
    let mut out: Vec<usize> = Vec::new();
    let mut i: usize = 0;
    while i < found.len()
        invariant
            i <= found@.len(),
            all == found_views(found@),
            in_rank(all, out@),
            out@.no_duplicates(),
            forall|k: int| 0 <= k < out@.len() ==> (#[trigger] out@[k]) < i,
            forall|x: int| 0 <= x < i ==> out@.contains(x as usize) == #[trigger] is_server(all, x),
        decreases found@.len() - i,
    {
        let ghost before = out@;
        if !is_proxy(found, i) {
            let mut p: usize = 0;
            while p < out.len() && not_after(&found[out[p]], &found[i])
                invariant
                    i < found@.len(),
                    p <= out@.len(),
                    all == found_views(found@),
                    forall|k: int| 0 <= k < out@.len() ==> (#[trigger] out@[k]) < i,
                    forall|k: int|
                        0 <= k < p ==> rank_le(all[#[trigger] out@[k] as int], all[i as int]),
                decreases out@.len() - p,
            {
                assert(all[out@[p as int] as int] == found_view(found@[out@[p as int] as int]));
                assert(all[i as int] == found_view(found@[i as int]));
                p += 1;
            }
            proof {
                if p < out@.len() {
                    assert(all[out@[p as int] as int] == found_view(found@[out@[p as int] as int]));
                    assert(all[i as int] == found_view(found@[i as int]));
                }
                lemma_ranked_insert(all, out@, p as int, i);
            }
            out.insert(p, i);
            proof {
                let after = out@;
                assert forall|j: int, k: int| 0 <= j < k < after.len() implies after[j] != after[k] by {
                    let jb = if j < p {
                        j
                    } else {
                        j - 1
                    };
                    let kb = if k < p {
                        k
                    } else {
                        k - 1
                    };
                    if j != p && k != p {
                        assert(before[jb] != before[kb]);
                    }
                }
                assert forall|k: int| 0 <= k < after.len() implies (#[trigger] after[k]) < i + 1 by {
                    if k < p {
                        assert(after[k] == before[k]);
                    } else if k > p {
                        assert(after[k] == before[k - 1]);
                    }
                }
                assert forall|x: int| 0 <= x < i + 1 implies after.contains(x as usize)
                    == #[trigger] is_server(all, x) by {
                    if x == i {
                        assert(after[p as int] == i);
                    } else {
                        if before.contains(x as usize) {
                            let k = choose|k: int| 0 <= k < before.len() && before[k] == x as usize;
                            if k < p {
                                assert(after[k] == x as usize);
                            } else {
                                assert(after[k + 1] == x as usize);
                            }
                        }
                        if after.contains(x as usize) {
                            let k = choose|k: int| 0 <= k < after.len() && after[k] == x as usize;
                            if k < p {
                                assert(before[k] == x as usize);
                            } else if k > p {
                                assert(before[k - 1] == x as usize);
                            }
                        }
                    }
                }
            }
        } else {
            assert forall|x: int| 0 <= x < i + 1 implies out@.contains(x as usize)
                == #[trigger] is_server(all, x) by {
                if x == i && out@.contains(x as usize) {
                    let k = choose|k: int| 0 <= k < out@.len() && out@[k] == x as usize;
                    assert(out@[k] < i);
                }
            }
        }
        i += 1;
    }
    out
}

/// What was found, in the order of a ranking.
pub open spec fn ranked(
    found: Seq<(EngineKind, Seq<char>, Option<Seq<char>>)>,
    r: Seq<usize>,
) -> Seq<(EngineKind, Seq<char>, Option<Seq<char>>)> {
    Seq::new(r.len(), |k: int| found[r[k] as int])
}

// A list of different places that holds every place, and each in order, is the list of all places.
proof fn lemma_in_place(s: Seq<usize>, n: int)
    requires
        0 <= n <= usize::MAX,
        forall|k: int| 0 <= k < s.len() ==> (#[trigger] s[k]) < n,
        forall|j: int, k: int| 0 <= j < k < s.len() ==> s[j] < s[k],
        forall|x: int| 0 <= x < n ==> s.contains(#[trigger] (x as usize)),
    ensures
        s == Seq::new(n as nat, |k: int| k as usize),
{
    assert forall|k: int| 0 <= k < s.len() implies (#[trigger] s[k]) >= k by {
        lemma_not_before(s, k);
    }
    if n > 0 {
        lemma_at_place(s, n, n - 1);
    }
    if s.len() > n {
        assert(s[n] >= n);
    }
    assert forall|i: int| 0 <= i < n implies #[trigger] s[i] == i as usize by {
        lemma_at_place(s, n, i);
    }
    assert(s =~= Seq::new(n as nat, |k: int| k as usize));
}

proof fn lemma_not_before(s: Seq<usize>, k: int)
    requires
        0 <= k < s.len(),
        forall|i: int, j: int| 0 <= i < j < s.len() ==> s[i] < s[j],
    ensures
        s[k] >= k,
    decreases k,
{
    if k > 0 {
        lemma_not_before(s, k - 1);
        assert(s[k - 1] < s[k]);
    }
}

proof fn lemma_at_place(s: Seq<usize>, n: int, i: int)
    requires
        0 <= i < n <= usize::MAX,
        forall|k: int| 0 <= k < s.len() ==> (#[trigger] s[k]) < n,
        forall|k: int| 0 <= k < s.len() ==> (#[trigger] s[k]) >= k,
        forall|x: int| 0 <= x < n ==> s.contains(#[trigger] (x as usize)),
    ensures
        i < s.len() && s[i] == i as usize,
    decreases i,
{
    assert(s.contains(i as usize));
    let p = choose|p: int| 0 <= p < s.len() && s[p] == i as usize;
    assert(s[p] >= p);
    if p < i {
        lemma_at_place(s, n, p);
    }
}

/// Ranking what is ranked changes nothing: every find stays, in its place.
pub proof fn law_ranking_twice_changes_nothing(
    found: Seq<(EngineKind, Seq<char>, Option<Seq<char>>)>,
    r: Seq<usize>,
    again: Seq<usize>,
)
    requires
        found.len() <= usize::MAX,
        is_ranking(found, r),
        is_ranking(ranked(found, r), again),
    ensures
        again == Seq::new(r.len(), |k: int| k as usize),
        ranked(ranked(found, r), again) == ranked(found, r),
{
    let kept = ranked(found, r);
    assert forall|k: int| 0 <= k < r.len() implies #[trigger] is_server(kept, k) by {
        assert(r.contains(r[k]));
        assert(is_server(found, r[k] as int));
        if native_serves(kept, kept[k].2) {
            let j = choose|j: int|
                0 <= j < kept.len() && (#[trigger] kept[j]).0 != EngineKind::OpenAi && kept[j].2
                    == kept[k].2;
            assert(found[r[j] as int].2 == found[r[k] as int].2);
            assert(native_serves(found, found[r[k] as int].2));
        }
    }
    assert(r.len() <= found.len()) by {
        lemma_few_places(r, found.len());
    }
    assert forall|x: int| 0 <= x < r.len() implies again.contains(#[trigger] (x as usize)) by {
        assert(is_server(kept, x));
    }
    assert forall|j: int, k: int| 0 <= j < k < again.len() implies again[j] < again[k] by {
        let (a, b) = (again[j] as int, again[k] as int);
        assert(rank_le(kept[again[j] as int], kept[again[k] as int]));
        assert(again[j] != again[k]);
        if b < a {
            assert(rank_le(found[r[b] as int], found[r[a] as int]));
            assert(rank_le(kept[again[k] as int], kept[again[j] as int]));
        }
    }
    lemma_in_place(again, r.len() as int);
    assert(ranked(kept, again) =~= kept);
}

proof fn lemma_few_places(r: Seq<usize>, n: nat)
    requires
        r.no_duplicates(),
        forall|k: int| 0 <= k < r.len() ==> (#[trigger] r[k]) < n,
    ensures
        r.len() <= n,
{
    let places = r.map_values(|x: usize| x as int);
    assert(places.no_duplicates());
    places.unique_seq_to_set();
    let all = vstd::set_lib::set_int_range(0, n as int);
    vstd::set_lib::lemma_int_range(0, n as int);
    assert(places.to_set().subset_of(all)) by {
        assert forall|x: int| places.to_set().contains(x) implies all.contains(x) by {
            assert(places.contains(x));
            let k = choose|k: int| 0 <= k < places.len() && places[k] == x;
            assert(r[k] < n);
        }
    }
    vstd::set_lib::lemma_len_subset(places.to_set(), all);
}

/// Every engine that is known by name is kept, and a plain answer is dropped only where one of them
/// serves its model.
pub proof fn law_rank_drops_only_proxies(found: Seq<(EngineKind, Seq<char>, Option<Seq<char>>)>, i: int)
    requires
        0 <= i < found.len(),
    ensures
        found[i].0 != EngineKind::OpenAi ==> is_server(found, i),
        !is_server(found, i) ==> found[i].0 == EngineKind::OpenAi && exists|j: int|
            0 <= j < found.len() && j != i && is_server(found, j) && (#[trigger] found[j]).2
                == found[i].2,
{
    if !is_server(found, i) {
        let j = choose|j: int|
            0 <= j < found.len() && (#[trigger] found[j]).0 != EngineKind::OpenAi && found[j].2
                == found[i].2;
        assert(is_server(found, j));
    }
}

/// A ranking leaves out a plain OpenAI-compatible find exactly where some engine that is known by name,
/// of whatever kind, has the same model, and leaves out nothing else. Of what it keeps, the engines
/// known by name come first, then among those of one sort the ones with a model loaded.
pub proof fn law_a_ranking_keeps_the_servers(
    found: Seq<(EngineKind, Seq<char>, Option<Seq<char>>)>,
    r: Seq<usize>,
    i: int,
)
    requires
        found.len() <= usize::MAX,
        is_ranking(found, r),
        0 <= i < found.len(),
    ensures
        !r.contains(i as usize) <==> found[i].0 == EngineKind::OpenAi && exists|j: int|
            0 <= j < found.len() && (#[trigger] found[j]).0 != EngineKind::OpenAi && found[j].2
                == found[i].2,
        forall|a: int, b: int|
            0 <= a < b < r.len() ==> {
                let (x, y) = (found[#[trigger] r[a] as int], found[#[trigger] r[b] as int]);
                &&& r[a] != r[b]
                &&& y.0 != EngineKind::OpenAi ==> x.0 != EngineKind::OpenAi
                &&& (x.0 == EngineKind::OpenAi) == (y.0 == EngineKind::OpenAi) && y.2 is Some
                    ==> x.2 is Some
                &&& (x.0 == EngineKind::OpenAi) == (y.0 == EngineKind::OpenAi) && (x.2 is None) == (y.2
                    is None) ==> x.1 == y.1 || !text_le(y.1, x.1)
            },
{
    assert(r.contains(i as usize) == is_server(found, i));
    assert forall|a: int, b: int| 0 <= a < b < r.len() implies {
        let (x, y) = (found[#[trigger] r[a] as int], found[#[trigger] r[b] as int]);
        &&& r[a] != r[b]
        &&& y.0 != EngineKind::OpenAi ==> x.0 != EngineKind::OpenAi
        &&& (x.0 == EngineKind::OpenAi) == (y.0 == EngineKind::OpenAi) && y.2 is Some ==> x.2 is Some
        &&& (x.0 == EngineKind::OpenAi) == (y.0 == EngineKind::OpenAi) && (x.2 is None) == (y.2 is None)
            ==> x.1 == y.1 || !text_le(y.1, x.1)
    } by {
        let (x, y) = (found[r[a] as int], found[r[b] as int]);
        assert(rank_le(x, y));
        if text_le(x.1, y.1) && text_le(y.1, x.1) {
            lemma_text_le_same(x.1, y.1);
        }
    }
}

proof fn lemma_text_le_same(a: Seq<char>, b: Seq<char>)
    requires
        text_le(a, b),
        text_le(b, a),
    ensures
        a == b,
    decreases a.len(),
{
    if a.len() > 0 && b.len() > 0 {
        lemma_text_le_same(a.drop_first(), b.drop_first());
        assert(a =~= seq![a[0]] + a.drop_first());
        assert(b =~= seq![b[0]] + b.drop_first());
    } else {
        assert(a =~= b);
    }
}

/// Whether a port off the usual ones is a proxy by its one cheap answer, so that nothing more is
/// asked of it: its model is one that an engine found before serves.
pub fn is_known_model(model: &Option<String>, known: &Vec<String>) -> (r: bool)
    ensures
        r == (match *model {
            Some(m) => crate::collect::listed(views(known@), m@),
            None => false,
        }),
{
    match model {
        Some(m) => crate::collect::is_listed(known, m.as_str()),
        None => false,
    }
}

/// The models that the engines known by name serve.
pub open spec fn native_models(found: Seq<(EngineKind, Seq<char>, Option<Seq<char>>)>) -> Seq<Seq<char>>
    decreases found.len(),
{
    if found.len() == 0 {
        Seq::empty()
    } else {
        let before = native_models(found.drop_last());
        match found.last().2 {
            Some(m) if found.last().0 != EngineKind::OpenAi => before.push(m),
            _ => before,
        }
    }
}

/// The models that the engines known by name serve.
pub fn known_models(found: &Vec<Found>) -> (r: Vec<String>)
    ensures
        views(r@) == native_models(found_views(found@)),
{
    let mut out: Vec<String> = Vec::new();
    let ghost all = found_views(found@);
    let mut i: usize = 0;
    assert(views(out@) =~= native_models(all.take(0)));
    while i < found.len()
        invariant
            i <= found@.len(),
            all == found_views(found@),
            views(out@) == native_models(all.take(i as int)),
        decreases found@.len() - i,
    {
        proof {
            assert(all.take(i + 1).drop_last() =~= all.take(i as int));
            assert(all.take(i + 1).last() == found_view(found@[i as int]));
        }
        if found[i].kind != EngineKind::OpenAi {
            if let Some(m) = &found[i].model {
                let ghost before = views(out@);
                out.push(m.clone());
                assert(views(out@) =~= before.push(m@));
            }
        }
        i += 1;
    }
    assert(all.take(all.len() as int) =~= all);
    out
}

/// A model is known exactly where some engine other than a plain OpenAI-compatible one serves it.
pub proof fn law_known_models_are_served(
    found: Seq<(EngineKind, Seq<char>, Option<Seq<char>>)>,
    m: Seq<char>,
)
    ensures
        native_models(found).contains(m) <==> exists|j: int|
            0 <= j < found.len() && (#[trigger] found[j]).0 != EngineKind::OpenAi && found[j].2 == Some(m),
    decreases found.len(),
{
    if found.len() > 0 {
        let rest = found.drop_last();
        law_known_models_are_served(rest, m);
        let before = native_models(rest);
        let after = native_models(found);
        if native_models(found).contains(m) {
            let k = choose|k: int| 0 <= k < after.len() && after[k] == m;
            if k < before.len() {
                assert(before[k] == m);
                let j = choose|j: int|
                    0 <= j < rest.len() && (#[trigger] rest[j]).0 != EngineKind::OpenAi && rest[j].2
                        == Some(m);
                assert(found[j] == rest[j]);
            } else {
                assert(found[found.len() - 1].2 == Some(m));
            }
        }
        if exists|j: int|
            0 <= j < found.len() && (#[trigger] found[j]).0 != EngineKind::OpenAi && found[j].2 == Some(m) {
            let j = choose|j: int|
                0 <= j < found.len() && (#[trigger] found[j]).0 != EngineKind::OpenAi && found[j].2
                    == Some(m);
            if j < rest.len() {
                assert(rest[j] == found[j]);
                let k = choose|k: int| 0 <= k < before.len() && before[k] == m;
                assert(after[k] == m);
            } else {
                assert(after.last() == m);
            }
        }
    } else {
        assert(!native_models(found).contains(m));
    }
}

/// Which ports are asked in full first, the usual ones, and which are asked the cheap question
/// before.
pub fn split_ports(ports: &Vec<u16>, common: &Vec<u16>) -> (r: (Vec<u16>, Vec<u16>))
    ensures
        r.0@ == ports@.filter(|p: u16| common@.contains(p)),
        r.1@ == ports@.filter(|p: u16| !common@.contains(p)),
{
    let ghost usual = |p: u16| common@.contains(p);
    let ghost other = |p: u16| !common@.contains(p);
    let mut a: Vec<u16> = Vec::new();
    let mut b: Vec<u16> = Vec::new();
    let mut i: usize = 0;
    proof {
        reveal(Seq::filter);
    }
    while i < ports.len()
        invariant
            i <= ports@.len(),
            usual == (|p: u16| common@.contains(p)),
            other == (|p: u16| !common@.contains(p)),
            a@ == ports@.take(i as int).filter(usual),
            b@ == ports@.take(i as int).filter(other),
        decreases ports@.len() - i,
    {
        proof {
            reveal(Seq::filter);
            assert(ports@.take(i + 1).drop_last() =~= ports@.take(i as int));
        }
        if has_port(common, ports[i]) {
            a.push(ports[i]);
        } else {
            b.push(ports[i]);
        }
        i += 1;
    }
    assert(ports@.take(ports@.len() as int) =~= ports@);
    (a, b)
}

// ----------------------------------------------------------------- what is said

/// Ports as a list in brackets.
pub open spec fn port_list(ports: Seq<u16>) -> Seq<char> {
    "["@ + joined(ports.map_values(|p: u16| dec(p as nat)), ", "@) + "]"@
}

fn list_ports(ports: &[u16]) -> (r: String)
    ensures
        r@ == port_list(ports@),
{
    let ghost f = |p: u16| dec(p as nat);
    let mut parts: Vec<String> = Vec::new();
    let mut i: usize = 0;
    while i < ports.len()
        invariant
            i <= ports@.len(),
            f == (|p: u16| dec(p as nat)),
            views(parts@) == ports@.take(i as int).map_values(f),
        decreases ports@.len() - i,
    {
        let ghost before = views(parts@);
        let s = dec_u64(ports[i] as u64);
        parts.push(s);
        assert(views(parts@) =~= before.push(s@));
        assert(views(parts@) =~= ports@.take(i + 1).map_values(f));
        i += 1;
    }
    assert(ports@.take(ports@.len() as int) =~= ports@);
    let mut s = "[".to_owned();
    s.append(join(&parts, ", ").as_str());
    s.append("]");
    s
}

/// What the collector answers while it has found no server.
pub open spec fn waiting_text(tried: Seq<u16>) -> Seq<char> {
    "lss-collector is running but has not found an LLM server on this machine yet (asked ports "@
        + port_list(tried)
        + "). Start your model server - the collector finds it by itself within 15 s - or pin it with [[engine]] in collector.toml (lss-collector --detect shows what it sees)."@
}

/// What the collector answers while it has found no server.
pub fn waiting_message(tried: &[u16]) -> (r: String)
    ensures
        r@ == waiting_text(tried@),
{
    let mut s = "lss-collector is running but has not found an LLM server on this machine yet (asked ports ".to_owned();
    s.append(list_ports(tried).as_str());
    s.append(
        "). Start your model server - the collector finds it by itself within 15 s - or pin it with [[engine]] in collector.toml (lss-collector --detect shows what it sees).",
    );
    s
}

/// The whole answer of a listener that waits.
pub fn waiting_reply(body: &str) -> (r: String)
    ensures
        encode_utf8(body@).len() <= usize::MAX ==> r@
            == "HTTP/1.1 503 Service Unavailable\r\nContent-Type: text/plain; charset=utf-8\r\nX-LSS-Waiting: engine\r\nRetry-After: 15\r\nContent-Length: "@
            + dec(encode_utf8(body@).len()) + "\r\nConnection: close\r\n\r\n"@ + body@,
{
    let n: usize = body.len();
    let mut s = "HTTP/1.1 503 Service Unavailable\r\nContent-Type: text/plain; charset=utf-8\r\nX-LSS-Waiting: engine\r\nRetry-After: 15\r\nContent-Length: ".to_owned();
    s.append(dec_u64(n as u64).as_str());
    s.append("\r\nConnection: close\r\n\r\n");
    s.append(body);
    s
}

/// What is said of the addresses on which the wait is answered.
#[derive(Clone, Copy, PartialEq, Eq, Structural, Debug)]
pub enum WaitingBound {
    /// on none: the collector will look unreachable
    Nowhere,
    /// on some
    Partly,
    Everywhere,
}

/// What is said of the addresses on which the wait is answered.
pub fn waiting_bound(bound: usize, listen: usize) -> (r: WaitingBound)
    ensures
        r == (if bound == 0 {
            WaitingBound::Nowhere
        } else if bound < listen {
            WaitingBound::Partly
        } else {
            WaitingBound::Everywhere
        }),
{
    if bound == 0 {
        WaitingBound::Nowhere
    } else if bound < listen {
        WaitingBound::Partly
    } else {
        WaitingBound::Everywhere
    }
}

/// What a report says behind the description of several servers.
pub open spec fn several_text() -> Seq<char> {
    "\nThis collector watches the FIRST one. Give each of the others a collector of its own\n(its own config with a [[engine]] block, `listen` port and `db_path`), and list them all as\n[[server]] entries in lss.toml: docs/ENGINES.md shows how. install.sh does this for you.\n"@
}

/// The report of a search: its text, and the exit code, which is 1 where nothing was found.
pub fn report(described: &str, found: usize) -> (r: (String, i32))
    ensures
        r.0@ == (if found > 1 {
            described@ + several_text()
        } else {
            described@
        }),
        r.1 == (if found == 0 {
            1i32
        } else {
            0i32
        }),
{
    let mut s = described.to_owned();
    if found > 1 {
        s.append(
            "\nThis collector watches the FIRST one. Give each of the others a collector of its own\n(its own config with a [[engine]] block, `listen` port and `db_path`), and list them all as\n[[server]] entries in lss.toml: docs/ENGINES.md shows how. install.sh does this for you.\n",
        );
    }
    (
        s,
        if found == 0 {
            1
        } else {
            0
        },
    )
}

/// The report where the configuration pins the engine: what is described there, or that nothing
/// answers, and the exit code.
pub fn report_pinned(kind: &str, url: &str, described: Option<&str>) -> (r: (String, i32))
    ensures
        ({
            let head = "The config pins the engine: "@ + kind@ + " at "@ + url@ + "\n"@;
            match described {
                Some(d) => r.0@ == head + d@ && r.1 == 0,
                None => r.0@ == head
                    + "  ... and nothing lss recognises answers there right now (is it running?)\n"@
                    && r.1 == 1,
            }
        }),
{
    let mut s = "The config pins the engine: ".to_owned();
    s.append(kind);
    s.append(" at ");
    s.append(url);
    s.append("\n");
    match described {
        Some(d) => {
            s.append(d);
            (s, 0)
        },
        None => {
            s.append(
                "  ... and nothing lss recognises answers there right now (is it running?)\n",
            );
            (s, 1)
        },
    }
}

/// The engine that the configuration pins, as its URL and its kind: `auto` where no kind is named, which
/// is recognised once it answers. Where one is pinned none is looked for.
pub fn pinned(engine: &Option<(Option<String>, String)>) -> (r: Option<(String, String)>)
    ensures
        match (*engine, r) {
            (Some(e), Some(p)) => p.0@ == e.1@ && p.1@ == (match e.0 {
                Some(kind) => kind@,
                None => "auto"@,
            }),
            (None, None) => true,
            _ => false,
        },
{
    match engine {
        Some(e) => {
            let kind = match &e.0 {
                Some(kind) => kind.clone(),
                None => "auto".to_owned(),
            };
            Some((e.1.clone(), kind))
        },
        None => None,
    }
}

/// What follows a search for the engine.
#[derive(Clone, Copy, PartialEq, Eq, Structural, Debug)]
pub enum ResolveStep {
    /// the engine was found: the listeners that wait are released first, where they were started
    Found { release: bool },
    /// nothing yet: the listeners that wait are started, where they were not
    LookAgain { start: bool },
}

/// What follows a search that found this many servers, with the listeners started or not.
pub fn resolve(found: usize, waiting: bool) -> (r: ResolveStep)
    ensures
        r == (if found > 0 {
            ResolveStep::Found { release: waiting }
        } else {
            ResolveStep::LookAgain { start: !waiting }
        }),
{
    if found > 0 {
        ResolveStep::Found { release: waiting }
    } else {
        ResolveStep::LookAgain { start: !waiting }
    }
}

/// Why a port gave no page, as it is said while engines are looked for.
pub open spec fn knock_fault(f: Fetched) -> Option<Seq<char>> {
    match f {
        Fetched::Body(_) => None,
        Fetched::Unread(e) => Some("read: "@ + e@),
        Fetched::Status(code) => Some("HTTP "@ + dec(code as nat)),
        Fetched::Broken(e) => Some(head(e@, 80)),
    }
}

/// What a request to a port comes to while engines are looked for: its body, or why there is none.
pub fn fetcher(f: Fetched) -> (r: Result<String, String>)
    ensures
        match r {
            Ok(b) => f == Fetched::Body(b),
            Err(e) => knock_fault(f) == Some(e@),
        },
{
    match f {
        Fetched::Broken(e) => Err(take(e.as_str(), 80)),
        f => http_get(f, None),
    }
}

/// The port of an address is the number behind its last colon, whatever host stands before it.
pub proof fn law_an_address_ends_in_its_port(host: Seq<char>, port: u16, listen: Seq<Seq<char>>)
    ensures
        port_of(host + seq![':'] + dec(port as nat)) == Some(port),
        ports_of(listen.push(host + seq![':'] + dec(port as nat))) == ports_of(listen).push(port),
        ports_of(Seq::empty()).len() == 0,
{
    let d = dec(port as nat);
    crate::text::law_decimal_reads_back(port as nat);
    assert(!d.contains(':')) by {
        if d.contains(':') {
            let i = choose|i: int| 0 <= i < d.len() && d[i] == ':';
            assert(crate::text::is_digit(d[i]));
        }
    }
    reveal_strlit(":");
    assert(":"@ =~= seq![':']);
    crate::text::law_behind_the_last_character(host, ':', d);
    let a = host + seq![':'] + d;
    assert(listen.push(a).drop_last() =~= listen);
}

/// An address without a number behind its last colon has no port, and is left out.
pub proof fn law_an_address_without_a_port_is_left_out(listen: Seq<Seq<char>>, addr: Seq<char>)
    requires
        parse_int(after_last(addr, ":"@), false) is None,
    ensures
        port_of(addr) is None,
        ports_of(listen.push(addr)) == ports_of(listen),
{
    assert(listen.push(addr).drop_last() =~= listen);
}

/// A port that gave a page has no fault, and every other has one; while no server is found, the answer
/// names the ports that were asked.
pub proof fn law_a_port_without_a_page_says_why(f: Fetched, tried: Seq<u16>)
    ensures
        knock_fault(f) is None <==> f is Body,
        f matches Fetched::Status(code) ==> knock_fault(f) == Some("HTTP "@ + dec(code as nat)),
        f matches Fetched::Unread(e) ==> crate::text::ends(knock_fault(f)->0, e@),
        f is Broken ==> knock_fault(f)->0.len() <= 80,
        crate::text::holds(waiting_text(tried), "(asked ports "@ + port_list(tried) + ")"@),
{
    if let Fetched::Unread(e) = f {
        let s = knock_fault(f)->0;
        assert(s.skip(s.len() - e@.len()) =~= e@);
    }
    let a = "lss-collector is running but has not found an LLM server on this machine yet (asked ports "@;
    let b = "). Start your model server - the collector finds it by itself within 15 s - or pin it with [[engine]] in collector.toml (lss-collector --detect shows what it sees)."@;
    reveal_strlit("lss-collector is running but has not found an LLM server on this machine yet (asked ports ");
    reveal_strlit("). Start your model server - the collector finds it by itself within 15 s - or pin it with [[engine]] in collector.toml (lss-collector --detect shows what it sees).");
    reveal_strlit("(asked ports ");
    reveal_strlit(")");
    let n = a.len() - 13;
    assert(a =~= a.take(n) + "(asked ports "@);
    assert(b =~= ")"@ + b.skip(1));
    let p = "(asked ports "@ + port_list(tried) + ")"@;
    assert(waiting_text(tried) =~= a.take(n) + p + b.skip(1));
    crate::text::lemma_stands_between(a.take(n), p, b.skip(1));
}

/// The search goes on until a server is found. What waits in its place is started once, and released
/// where it was started; it waits nowhere, somewhere or everywhere by how many addresses it got. A
/// report fails only where nothing was found.
pub proof fn law_the_search_ends_with_a_server(
    found: usize,
    waiting: bool,
    step: ResolveStep,
    bound: usize,
    listen: usize,
    where_bound: WaitingBound,
    described: &str,
    told: (String, i32),
)
    requires
        bound <= listen,
        call_ensures(resolve, (found, waiting), step),
        call_ensures(waiting_bound, (bound, listen), where_bound),
        call_ensures(report, (described, found), told),
    ensures
        found > 0 <==> step is Found,
        found > 0 ==> step == (ResolveStep::Found { release: waiting }),
        found == 0 ==> step == (ResolveStep::LookAgain { start: !waiting }),
        where_bound == WaitingBound::Nowhere <==> bound == 0,
        where_bound == WaitingBound::Everywhere <==> bound == listen && bound > 0,
        told.1 == 0 <==> found > 0,
        found <= 1 ==> told.0@ == described@,
        crate::text::starts(told.0@, described@),
{
    assert(told.0@.take(described@.len() as int) =~= described@);
}

/// The band of ports that is asked lies below those the system hands out, is at most ten thousand wide,
/// and holds no port that only the system may use.
pub proof fn law_the_band_lies_below_what_is_handed_out(lo: u16, r: Option<(u16, u16)>)
    requires
        call_ensures(port_band, (lo,), r),
    ensures
        r is Some <==> lo > 1024,
        r matches Some(b) ==> {
            &&& 1024 <= b.0 < b.1
            &&& b.1 <= lo && b.1 <= 30_000
            &&& b.1 - b.0 <= 10_000
            &&& b.1 == lo || b.1 == 30_000
            &&& b.0 == 1024 || b.1 - b.0 == 10_000
        },
{
}

/// A pinned engine is the one that the configuration names, of the kind it names, or of a kind that is
/// found out.
pub proof fn law_a_pin_is_what_is_configured(
    engine: Option<(Option<String>, String)>,
    r: Option<(String, String)>,
)
    requires
        call_ensures(pinned, (&engine,), r),
    ensures
        r is Some <==> engine is Some,
        r is Some ==> (r->0).0@ == (engine->0).1@,
        r is Some && (engine->0).0 is Some ==> (r->0).1@ == (engine->0).0->0@,
        r is Some && (engine->0).0 is None ==> (r->0).1@ == "auto"@,
{
}

} // verus!
