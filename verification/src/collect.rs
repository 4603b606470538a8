//! One poll: what is asked of each source, and what its answers are taken to mean.

use crate::detect::EngineKind;
use crate::text::{
    after_last, behind_last, chars_of, contains, dec, dec_i64, dec_int, dec_u64, find_from,
    find_text, first_at, first_index, head, holds, join, joined, lines, lines_of, opt_view,
    parse_int, parse_u64, same, split, split_on, starts, string_of, take, trim, trim_end_slashes,
    trimmed, views, without_end_slashes, words, words_of,
};
use std::collections::VecDeque;
use vstd::prelude::*;
use vstd::string::*;

verus! {

/// The hot path never looks further back than this, however long the journal was unreadable. An
/// older gap is handed to the streamed back-fill instead.
pub const HOT_LOOKBACK_SECS: i64 = 600;

/// A kernel line is remembered this long, so that it is reported once.
pub const XID_DEDUPE_SECS: i64 = 900;

/// Link state, ECC, remapped rows, limits: they move in days, not seconds.
pub const HEALTH_EVERY_SECS: i64 = 60;

// ---------------------------------------------------------- the kernel journal

/// The hot-path journal read: a bounded window, `journalctl` capped at a number of lines, filtered
/// in the pipeline so that only a bounded number of `NVRM: Xid` lines comes out.
pub open spec fn hot_script(since: int) -> Seq<char> {
    "journalctl -k --since @"@ + dec_int(since)
        + " -n 5000 -o short-iso --no-pager -q | grep -F 'NVRM: Xid' | head -n 200; true"@
}

/// The hot-path journal read: a bounded window, `journalctl` capped at a number of lines, filtered
/// in the pipeline so that only a bounded number of `NVRM: Xid` lines comes out.
pub fn hot_journal_script(since: i64) -> (r: String)
    ensures
        r@ == hot_script(since as int),
{
    let mut s = "journalctl -k --since @".to_owned();
    s.append(dec_i64(since).as_str());
    s.append(" -n 5000 -o short-iso --no-pager -q | grep -F 'NVRM: Xid' | head -n 200; true");
    s
}

/// The streamed read of the journal from `since`, to `until` where it is given.
pub open spec fn backfill_script_text(since: int, until: Option<i64>) -> Seq<char> {
    "nice -n 19 journalctl _TRANSPORT=kernel --since @"@ + dec_int(since) + (match until {
        Some(u) => " --until @"@ + dec_int(u as int),
        None => Seq::empty(),
    }) + " -o short-iso --no-pager -q | grep -F --line-buffered 'NVRM: Xid'; true"@
}

/// The streamed read of the journal from `since`, to `until` where it is given.
pub fn backfill_script(since: i64, until: Option<i64>) -> (r: String)
    ensures
        r@ == backfill_script_text(since as int, until),
{
    let mut s = "nice -n 19 journalctl _TRANSPORT=kernel --since @".to_owned();
    s.append(dec_i64(since).as_str());
    let mut u = String::new();
    if let Some(t) = until {
        u = " --until @".to_owned();
        u.append(dec_i64(t).as_str());
    }
    s.append(u.as_str());
    s.append(" -o short-iso --no-pager -q | grep -F --line-buffered 'NVRM: Xid'; true");
    s
}

/// Where the hot path reads from: the last successful read (5 s overlap), but never more than
/// `HOT_LOOKBACK_SECS` back. The second part is the gap `[from, until)` that this bound leaves
/// uncovered, for the streamed back-fill.
pub open spec fn window(last_ok: int, now: int) -> (int, Option<(int, int)>) {
    let floor = now - HOT_LOOKBACK_SECS;
    if last_ok - 5 >= floor {
        (last_ok - 5, None)
    } else {
        (floor, Some((last_ok - 5, floor)))
    }
}

/// A gap as mathematical integers.
pub open spec fn gap_view(gap: Option<(i64, i64)>) -> Option<(int, int)> {
    match gap {
        Some(g) => Some((g.0 as int, g.1 as int)),
        None => None,
    }
}

/// Where the hot path reads from: the last successful read (5 s overlap), but never more than
/// `HOT_LOOKBACK_SECS` back. The second part is the gap `[from, until)` that this bound leaves
/// uncovered, for the streamed back-fill.
pub fn hot_window(last_ok: i64, now: i64) -> (r: (i64, Option<(i64, i64)>))
    requires
        last_ok - 5 >= i64::MIN,
        now - HOT_LOOKBACK_SECS >= i64::MIN,
    ensures
        (r.0 as int, gap_view(r.1)) == window(last_ok as int, now as int),
{
    let floor: i64 = now - HOT_LOOKBACK_SECS;
    if last_ok - 5 >= floor {
        (last_ok - 5, None)
    } else {
        (floor, Some((last_ok - 5, floor)))
    }
}

/// Every instant from the overlap before the last good read up to now is covered exactly once: by
/// the gap, which ends where the window begins, or by the window, which is never longer than
/// `HOT_LOOKBACK_SECS`. Nothing before the overlap is read.
pub proof fn law_window_covers(last_ok: int, now: int, t: int)
    requires
        last_ok - 5 <= t <= now,
    ensures
        ({
            let (since, gap) = window(last_ok, now);
            let in_gap = match gap {
                Some(g) => g.0 <= t < g.1,
                None => false,
            };
            let in_window = since <= t;
            &&& in_gap != in_window
            &&& now - since <= HOT_LOOKBACK_SECS
            &&& since >= last_ok - 5
            &&& match gap {
                Some(g) => g.0 == last_ok - 5 && g.1 == since && g.0 < g.1,
                None => since == last_ok - 5,
            }
        }),
{
}

// ------------------------------------------------------------- the engine's key

/// The engine's API key and the base URL it belongs to, once it is set.
pub struct EngineAuth {
    pub set: Option<(String, String)>,
}

/// What an `EngineAuth` holds: base and key.
pub open spec fn auth_view(a: EngineAuth) -> Option<(Seq<char>, Seq<char>)> {
    match a.set {
        Some(p) => Some((p.0@, p.1@)),
        None => None,
    }
}

impl EngineAuth {
    /// No key yet.
    pub fn new() -> (r: EngineAuth)
        ensures
            auth_view(r) is None,
    {
        EngineAuth { set: None }
    }
}

/// Remembers the engine's key. An empty key is nothing to send, and nothing is set; a key that is
/// set stays.
pub fn set_engine_auth(auth: &mut EngineAuth, base: &str, key: &str)
    ensures
        auth_view(*final(auth)) == (if auth_view(*old(auth)) is Some || trimmed(key@).len() == 0 {
            auth_view(*old(auth))
        } else {
            Some((without_end_slashes(base@), trimmed(key@)))
        }),
{
    let key = trim(key);
    if auth.set.is_none() && !key.as_str().is_empty() {
        auth.set = Some((trim_end_slashes(base), key));
    }
}

/// Whether `url` is the engine at `base`, or a path under it. A prefix alone is not enough:
/// `http://h:80` does not match `http://h:8000/...`.
pub open spec fn under(url: Seq<char>, base: Seq<char>) -> bool {
    let b = without_end_slashes(base);
    &&& b.len() > 0
    &&& starts(url, b)
    &&& url.len() == b.len() || url[b.len() as int] == '/' || url[b.len() as int] == '?'
}

/// Whether `url` is the engine at `base`, or a path under it. A prefix alone is not enough:
/// `http://h:80` does not match `http://h:8000/...`.
pub fn is_under(url: &str, base: &str) -> (r: bool)
    ensures
        r == under(url@, base@),
{
    let b = chars_of(trim_end_slashes(base).as_str());
    let u = chars_of(url);
    if b.len() == 0 || b.len() > u.len() {
        return false;
    }
    assert(u@.subrange(0, b@.len() as int) =~= u@.take(b@.len() as int));
    if !crate::text::matches_at(&u, &b, 0) {
        return false;
    }
    u.len() == b.len() || u[b.len()] == '/' || u[b.len()] == '?'
}

/// The `Authorization` header of a request to `url`: `Bearer <key>` when, and only when, the
/// request goes to the engine that the key belongs to.
pub fn authed(auth: &EngineAuth, url: &str) -> (r: Option<String>)
    ensures
        opt_view(r) == (match auth_view(*auth) {
            Some(p) => if under(url@, p.0) {
                Some("Bearer "@ + p.1)
            } else {
                None
            },
            None => None,
        }),
{
    match &auth.set {
        Some(p) => {
            if is_under(url, p.0.as_str()) {
                let mut h = "Bearer ".to_owned();
                h.append(p.1.as_str());
                Some(h)
            } else {
                None
            }
        },
        None => None,
    }
}

/// A host or port that goes on where the base ends is another server: no key goes there.
pub proof fn law_longer_host_is_another(base: Seq<char>, tail: Seq<char>)
    requires
        tail.len() > 0,
        tail[0] != '/',
        tail[0] != '?',
        without_end_slashes(base) == base,
    ensures
        !under(base + tail, base),
{
    let url = base + tail;
    assert(url[base.len() as int] == tail[0]);
}

/// Every path under the base, and the base itself, carries the key.
pub proof fn law_paths_are_under(base: Seq<char>, path: Seq<char>)
    requires
        base.len() > 0,
        without_end_slashes(base) == base,
        path.len() > 0 ==> path[0] == '/' || path[0] == '?',
    ensures
        under(base + path, base),
{
    let url = base + path;
    assert(url.take(base.len() as int) =~= base);
    if path.len() > 0 {
        assert(url[base.len() as int] == path[0]);
    }
}

/// A request carries the key exactly where its address is the engine's own, or goes on behind it with a
/// path or a query.
pub proof fn law_only_the_engine_gets_the_key(url: Seq<char>, base: Seq<char>)
    ensures
        ({
            let b = without_end_slashes(base);
            under(url, base) <==> b.len() > 0 && exists|path: Seq<char>|
                url == b + path && (path.len() == 0 || path[0] == '/' || path[0] == '?')
        }),
{
    let b = without_end_slashes(base);
    if under(url, base) {
        let path = url.skip(b.len() as int);
        assert(url =~= b + path);
        assert(url == b + path && (path.len() == 0 || path[0] == '/' || path[0] == '?'));
    }
    if b.len() > 0 && exists|path: Seq<char>|
        url == b + path && (path.len() == 0 || path[0] == '/' || path[0] == '?') {
        let path = choose|path: Seq<char>|
            url == b + path && (path.len() == 0 || path[0] == '/' || path[0] == '?');
        assert(url.take(b.len() as int) =~= b);
    }
}

/// The part of a transport error that an operator needs: what stands behind the last colon, cut.
pub fn short_err(e: &str) -> (r: String)
    ensures
        r@ == head(after_last(e@, ": "@), 80),
{
    take(behind_last(e, ": ").as_str(), 80)
}

/// What became of a request for a page.
pub enum Fetched {
    Body(String),
    /// a body that cannot be read: why
    Unread(String),
    /// a status that is no success
    Status(u16),
    /// no answer: why
    Broken(String),
}

/// Why a page was not read, as it is said: `cert` is what a refused certificate is called, where it
/// was one.
pub open spec fn fetch_fault(f: Fetched, cert: Option<Seq<char>>) -> Option<Seq<char>> {
    match f {
        Fetched::Body(_) => None,
        Fetched::Unread(e) => Some("read: "@ + e@),
        Fetched::Status(code) => Some("HTTP "@ + dec(code as nat)),
        Fetched::Broken(e) => Some(
            match cert {
                Some(c) => c,
                None => head(after_last(e@, ": "@), 80),
            },
        ),
    }
}

/// What a request for a page comes to: its body, or why there is none.
pub fn http_get(f: Fetched, cert: Option<String>) -> (r: Result<String, String>)
    ensures
        match r {
            Ok(b) => f == Fetched::Body(b),
            Err(e) => fetch_fault(f, opt_view(cert)) == Some(e@),
        },
{
    match f {
        Fetched::Body(b) => Ok(b),
        Fetched::Unread(e) => {
            let mut s = "read: ".to_owned();
            s.append(e.as_str());
            Err(s)
        },
        Fetched::Status(code) => {
            let mut s = "HTTP ".to_owned();
            s.append(dec_u64(code as u64).as_str());
            Err(s)
        },
        Fetched::Broken(e) => match cert {
            Some(c) => Err(c),
            None => Err(short_err(e.as_str())),
        },
    }
}

// -------------------------------------------------------- this machine's names

/// This machine's host name, from what `hostname` printed, if it ran.
pub fn host_name(stdout: Option<&str>) -> (r: String)
    ensures
        r@ == (match stdout {
            Some(s) if trimmed(s@).len() > 0 => trimmed(s@),
            _ => "localhost"@,
        }),
{
    if let Some(s) = stdout {
        let t = trim(s);
        if !t.as_str().is_empty() {
            return t;
        }
    }
    "localhost".to_owned()
}

/// What stands behind the last colon of `s`.
pub open spec fn behind_colon(s: Seq<char>) -> Seq<char> {
    after_last(s, ":"@)
}

/// What stands between the first `pid=` of a line and the comma, or the next `pid=`, behind it.
pub open spec fn pid_field(line: Seq<char>) -> Option<Seq<char>> {
    let i = first_at(line, "pid="@, 0);
    if i < 0 {
        None
    } else {
        let rest = line.skip(i + 4);
        let j = first_at(rest, "pid="@, 0);
        let part = if j < 0 {
            rest
        } else {
            rest.take(j)
        };
        Some(part.take(first_index(part, ',')))
    }
}

/// What one line of `ss -ltnpH` says of `port`: the pid, where its local address ends in the port
/// and the process is named.
pub open spec fn ss_line(line: Seq<char>, port: nat) -> Option<Seq<char>> {
    let w = words_of(line);
    if w.len() > 3 && behind_colon(w[3]) == dec(port) {
        pid_field(line)
    } else {
        None
    }
}

/// The first pid that a line names.
pub open spec fn first_pid(lines: Seq<Seq<char>>, port: nat) -> Option<Seq<char>>
    decreases lines.len(),
{
    if lines.len() == 0 {
        None
    } else if ss_line(lines[0], port) is Some {
        ss_line(lines[0], port)
    } else {
        first_pid(lines.drop_first(), port)
    }
}

fn pid_in_line(line: &str) -> (r: Option<String>)
    ensures
        opt_view(r) == pid_field(line@),
{
    proof {
        reveal_strlit("pid=");
    }
    let v = chars_of(line);
    let p = chars_of("pid=");
    let n: usize = v.len();
    match find_text(&v, &p, 0) {
        None => None,
        Some(i) => {
            let from: usize = i + 4;
            let rest = string_of(&v, from, n);
            assert(rest@ =~= line@.skip(i + 4));
            let rv = chars_of(rest.as_str());
            let to: usize = match find_text(&rv, &p, 0) {
                Some(j) => j,
                None => rv.len(),
            };
            let part = string_of(&rv, 0, to);
            proof {
                let j = first_at(rest@, "pid="@, 0);
                if j < 0 {
                    assert(part@ =~= rest@);
                } else {
                    assert(part@ =~= rest@.take(j));
                }
            }
            let pv = chars_of(part.as_str());
            let k: usize = find_from(&pv, ',', 0);
            assert(pv@.skip(0) =~= pv@);
            assert(pv@.subrange(0, k as int) =~= pv@.take(k as int));
            Some(string_of(&pv, 0, k))
        },
    }
}

/// The pid in `ss -ltnpH` output whose local address ends in `:<port>`.
pub fn pid_from_ss(out: &str, port: u16) -> (r: Option<String>)
    ensures
        opt_view(r) == first_pid(lines_of(out@), port as nat),
{
    let ls = lines(out);
    let want = dec_u64(port as u64);
    let mut i: usize = 0;
    let ghost all = views(ls@);
    assert(all.skip(0) =~= all);
    while i < ls.len()
        invariant
            i <= ls@.len(),
            all == views(ls@),
            all == lines_of(out@),
            want@ == dec(port as nat),
            first_pid(all, port as nat) == first_pid(all.skip(i as int), port as nat),
        decreases ls@.len() - i,
    {
        let line = &ls[i];
        assert(all.skip(i as int)[0] == line@);
        assert(all.skip(i as int).drop_first() =~= all.skip(i + 1));
        let w = words(line.as_str());
        assert(views(w@).len() == w@.len());
        if w.len() > 3 {
            assert(views(w@)[3] == w@[3]@);
            let p = behind_last(w[3].as_str(), ":");
            if same(p.as_str(), want.as_str()) {
                let pid = pid_in_line(line.as_str());
                if pid.is_some() {
                    return pid;
                }
            }
        }
        i += 1;
    }
    None
}

/// The process that listens on `port`: from `ss`, else the first line of `lsof`, where either
/// writes a number.
pub open spec fn listener(ss: Option<Seq<char>>, lsof: Option<Seq<char>>, port: nat) -> Option<u32> {
    let named = match ss {
        Some(s) => first_pid(lines_of(s), port),
        None => None,
    };
    let text = if named is Some {
        named
    } else {
        match lsof {
            Some(l) => if lines_of(l).len() > 0 {
                Some(lines_of(l)[0])
            } else {
                None
            },
            None => None,
        }
    };
    match text {
        Some(t) => match parse_int(trimmed(t), false) {
            Some(n) if n <= u32::MAX => Some(n as u32),
            _ => None,
        },
        None => None,
    }
}

/// What an optional text holds.
pub open spec fn opt_str(s: Option<&str>) -> Option<Seq<char>> {
    match s {
        Some(t) => Some(t@),
        None => None,
    }
}

/// The process that listens on `port`: from `ss`, else the first line of `lsof`, where either
/// writes a number.
pub fn listener_pid(ss: Option<&str>, lsof: Option<&str>, port: u16) -> (r: Option<u32>)
    ensures
        r == listener(opt_str(ss), opt_str(lsof), port as nat),
{
    let named = match ss {
        Some(s) => pid_from_ss(s, port),
        None => None,
    };
    let text: Option<String> = match named {
        Some(t) => Some(t),
        None => match lsof {
            Some(l) => {
                let ls = lines(l);
                assert(ls@.len() == lines_of(l@).len());
                if ls.len() > 0 {
                    assert(views(ls@)[0] == ls@[0]@);
                    Some(ls[0].clone())
                } else {
                    None
                }
            },
            None => None,
        },
    };
    match text {
        Some(t) => match parse_u64(trim(t.as_str()).as_str()) {
            Some(n) => if n <= 4294967295 {
                Some(n as u32)
            } else {
                None
            },
            None => None,
        },
        None => None,
    }
}

/// The parts that are not empty.
pub open spec fn non_empty(parts: Seq<Seq<char>>) -> Seq<Seq<char>> {
    parts.filter(|p: Seq<char>| p.len() > 0)
}

/// The launch line of the process that listens on `port`, from its NUL-separated arguments. Empty
/// wherever something is missing: no port, no process, nothing readable.
pub open spec fn launch_line(port: nat, pid: Option<u32>, raw: Option<Seq<char>>) -> Seq<char> {
    match (pid, raw) {
        (Some(_), Some(r)) if port != 0 => joined(non_empty(split_on(r, '\0')), " "@),
        _ => Seq::empty(),
    }
}

/// The launch line of the process that listens on `port`, from its NUL-separated arguments. Empty
/// wherever something is missing: no port, no process, nothing readable.
pub fn engine_cmdline(port: u16, pid: Option<u32>, raw: Option<&str>) -> (r: String)
    ensures
        r@ == launch_line(port as nat, pid, opt_str(raw)),
{
    if port == 0 || pid.is_none() {
        return String::new();
    }
    match raw {
        None => String::new(),
        Some(raw) => {
            let parts = split(raw, '\0');
            let ghost p = |p: Seq<char>| p.len() > 0;
            let mut kept: Vec<String> = Vec::new();
            let mut i: usize = 0;
            proof {
                reveal(Seq::filter);
            }
            while i < parts.len()
                invariant
                    i <= parts@.len(),
                    p == (|p: Seq<char>| p.len() > 0),
                    views(kept@) == views(parts@).take(i as int).filter(p),
                decreases parts@.len() - i,
            {
                proof {
                    reveal(Seq::filter);
                    assert(views(parts@).take(i + 1).drop_last() =~= views(parts@).take(i as int));
                    assert(views(parts@).take(i + 1).last() == parts@[i as int]@);
                }
                let ghost before = views(kept@);
                if !parts[i].as_str().is_empty() {
                    kept.push(parts[i].clone());
                    assert(views(kept@) =~= before.push(parts@[i as int]@));
                }
                i += 1;
            }
            assert(views(parts@).take(parts@.len() as int) =~= views(parts@));
            join(&kept, " ")
        },
    }
}

// ------------------------------------------------------------------ the GPUs

/// Where GPU numbers come from on a machine.
#[derive(Clone, Copy, PartialEq, Eq, Structural, Debug)]
pub enum GpuSource {
    Nvidia,
    Amd,
    Apple,
    Absent,
}

/// Which programs a machine has.
#[derive(Clone, Copy, PartialEq, Eq, Structural, Debug)]
pub struct Programs {
    pub nvidia_smi: bool,
    pub amd_smi: bool,
    pub rocm_smi: bool,
    pub ioreg: bool,
    pub macos: bool,
}

/// NVIDIA first (the richest numbers), then AMD, then Apple Silicon, else none.
pub fn find_gpu_source(p: Programs) -> (r: GpuSource)
    ensures
        r == (if p.nvidia_smi {
            GpuSource::Nvidia
        } else if p.amd_smi || p.rocm_smi {
            GpuSource::Amd
        } else if p.macos && p.ioreg {
            GpuSource::Apple
        } else {
            GpuSource::Absent
        }),
{
    if p.nvidia_smi {
        GpuSource::Nvidia
    } else if p.amd_smi || p.rocm_smi {
        GpuSource::Amd
    } else if p.macos && p.ioreg {
        GpuSource::Apple
    } else {
        GpuSource::Absent
    }
}

/// Whether the kernel journal is searched for Xids on this machine.
#[derive(Clone, Copy, PartialEq, Eq, Structural, Debug)]
pub struct XidScanGate {
    pub nvidia: bool,
    pub journalctl: bool,
}

/// Whether a machine is searched, with this GPU source, and with or without `journalctl`.
pub fn xid_scan_gate(source: GpuSource, journalctl: bool) -> (r: XidScanGate)
    ensures
        r.nvidia == (source == GpuSource::Nvidia),
        r.journalctl == journalctl,
{
    XidScanGate { nvidia: source == GpuSource::Nvidia, journalctl }
}

impl XidScanGate {
    /// Only NVIDIA reports Xids, and only the kernel journal holds them.
    pub fn should_scan(&self) -> (r: bool)
        ensures
            r == (self.nvidia && self.journalctl),
    {
        self.nvidia && self.journalctl
    }
}

/// A reading of Apple's accelerator statistics: an empty one is a failure.
pub fn apple_reading<G>(read: Result<Vec<G>, String>) -> (r: Result<Vec<G>, String>)
    ensures
        match read {
            Ok(g) => if g@.len() == 0 {
                r is Err && r->Err_0@ == "ioreg: no IOAccelerator statistics"@
            } else {
                r == Ok::<Vec<G>, String>(g)
            },
            Err(e) => r == Err::<Vec<G>, String>(e),
        },
{
    match read {
        Ok(g) => if g.len() == 0 {
            Err("ioreg: no IOAccelerator statistics".to_owned())
        } else {
            Ok(g)
        },
        Err(e) => Err(e),
    }
}

/// A reading of AMD's GPUs: `amd-smi` where it names one, else its predecessor `rocm-smi`; an empty
/// one is a failure.
pub fn amd_reading<G>(amd: Option<Vec<G>>, rocm: Result<Vec<G>, String>) -> (r: Result<
    Vec<G>,
    String,
>)
    ensures
        match (amd, rocm) {
            (Some(g), _) if g@.len() > 0 => r == Ok::<Vec<G>, String>(g),
            (_, Ok(g)) => if g@.len() == 0 {
                r is Err && r->Err_0@ == "amd-smi / rocm-smi: no GPU in the output"@
            } else {
                r == Ok::<Vec<G>, String>(g)
            },
            (_, Err(e)) => r == Err::<Vec<G>, String>(e),
        },
{
    if let Some(g) = amd {
        if g.len() > 0 {
            return Ok(g);
        }
    }
    match rocm {
        Ok(g) => if g.len() == 0 {
            Err("amd-smi / rocm-smi: no GPU in the output".to_owned())
        } else {
            Ok(g)
        },
        Err(e) => Err(e),
    }
}

/// Whether `nvidia-smi` refused the extended field list: nothing parsed, and it said so.
pub open spec fn refused(parsed: nat, said: Seq<char>) -> bool {
    parsed == 0 && holds(said, "not a valid field"@)
}

/// What `nvidia-smi` printed, out and error, as one line of words.
pub fn smi_said(stdout: &str, stderr: &str) -> (r: String)
    ensures
        r@ == trimmed(stdout@) + " "@ + trimmed(stderr@),
{
    let mut s = trim(stdout);
    s.append(" ");
    s.append(trim(stderr).as_str());
    s
}

/// A reading of `nvidia-smi`: an empty one is a failure, told by what it said.
pub fn smi_reading<G>(read: Result<(Vec<G>, String), String>) -> (r: Result<Vec<G>, String>)
    ensures
        match read {
            Ok(g) => if g.0@.len() == 0 {
                r is Err && r->Err_0@ == "nvidia-smi: "@ + head(g.1@, 120)
            } else {
                r == Ok::<Vec<G>, String>(g.0)
            },
            Err(e) => r == Err::<Vec<G>, String>(e),
        },
{
    match read {
        Ok(g) => if g.0.len() == 0 {
            let mut s = "nvidia-smi: ".to_owned();
            s.append(take(g.1.as_str(), 120).as_str());
            Err(s)
        } else {
            Ok(g.0)
        },
        Err(e) => Err(e),
    }
}

// ------------------------------------------------------------------ the poller

/// What the poller carries from one poll to the next.
pub struct Poller {
    /// the last name that the engine's container was seen under
    pub serve_container: Option<String>,
    /// how far the gateway's log has been read
    pub log_cursor: Option<String>,
    /// when the kernel journal was last read
    pub xid_since: i64,
    /// the kernel lines that have been reported, with their own times
    pub xid_seen: VecDeque<(i64, String)>,
    /// cleared for good the first time `nvidia-smi` refuses the extended field list
    pub smi_ext_ok: bool,
    pub health_at: i64,
    /// which engine this is, once something recognisable has answered
    pub kind: Option<EngineKind>,
    /// where GPU numbers come from, once that was looked for
    pub gpu_source: Option<GpuSource>,
    /// when the engine's token counter was last read
    pub counter_at: Option<i64>,
    pub xid_gate: Option<XidScanGate>,
    /// whether NVML has been tried: a failed load is not tried again
    pub nvml_tried: bool,
}

/// What a poll asks of its sources.
pub struct Ask {
    pub source: GpuSource,
    pub refresh_pci: bool,
    pub load_nvml: bool,
    /// the journal read, where the journal is searched at all
    pub journal: Option<String>,
    pub journal_gap: Option<(i64, i64)>,
    pub want_health: bool,
    /// from where the gateway's log is read, where there is a gateway's container
    pub logs_since: Option<String>,
}

/// The source that a poll uses: the one found first.
pub open spec fn source_of(p: Poller, found: GpuSource) -> GpuSource {
    match p.gpu_source {
        Some(s) => s,
        None => found,
    }
}

/// What a poll goes by: what was found first.
pub open spec fn gate_of(p: Poller, found: GpuSource, journalctl: bool) -> XidScanGate {
    match p.xid_gate {
        Some(g) => g,
        None => XidScanGate { nvidia: source_of(p, found) == GpuSource::Nvidia, journalctl },
    }
}

impl Poller {
    /// The state before the first poll.
    pub fn new(now: i64) -> (r: Poller)
        ensures
            r.serve_container is None && r.log_cursor is None && r.kind is None && r.gpu_source is None,
            r.counter_at is None && r.xid_gate is None,
            r.xid_since == now,
            r.xid_seen@.len() == 0,
            r.smi_ext_ok && !r.nvml_tried,
            r.health_at == 0,
    {
        Poller {
            serve_container: None,
            log_cursor: None,
            xid_since: now,
            xid_seen: VecDeque::new(),
            smi_ext_ok: true,
            health_at: 0,
            kind: None,
            gpu_source: None,
            counter_at: None,
            xid_gate: None,
            nvml_tried: false,
        }
    }

    /// What this poll asks. `found` and `journalctl` say what the machine has, and are read once;
    /// `pinned` is the kind that the configuration names.
    pub fn ask(
        &mut self,
        now: i64,
        found: GpuSource,
        journalctl: bool,
        pinned: Option<EngineKind>,
        pci_known: bool,
        gate_container: &str,
    ) -> (r: Ask)
        requires
            old(self).xid_since - 5 >= i64::MIN,
            now - HOT_LOOKBACK_SECS >= i64::MIN,
        ensures
            r.source == source_of(*old(self), found),
            r.refresh_pci == (r.source == GpuSource::Nvidia && !pci_known),
            r.load_nvml == (r.source == GpuSource::Nvidia && !old(self).nvml_tried),
            ({
                let g = gate_of(*old(self), found, journalctl);
                let (since, gap) = window(old(self).xid_since as int, now as int);
                if g.nvidia && g.journalctl {
                    &&& opt_view(r.journal) == Some(hot_script(since))
                    &&& gap_view(r.journal_gap) == gap
                } else {
                    &&& r.journal is None
                    &&& r.journal_gap is None
                }
            }),
            r.want_health == crate::cycle::due(now, old(self).health_at, HEALTH_EVERY_SECS as int),
            opt_view(r.logs_since) == (if gate_container@.len() == 0 {
                None::<Seq<char>>
            } else if old(self).log_cursor is Some {
                opt_view(old(self).log_cursor)
            } else {
                Some("10m"@)
            }),
            *final(self) == (Poller {
                gpu_source: Some(r.source),
                xid_gate: Some(gate_of(*old(self), found, journalctl)),
                nvml_tried: old(self).nvml_tried || r.load_nvml,
                kind: if old(self).kind is Some {
                    old(self).kind
                } else {
                    pinned
                },
                health_at: if r.want_health {
                    now
                } else {
                    old(self).health_at
                },
                ..*old(self)
            }),
    {
        let source = match self.gpu_source {
            Some(s) => s,
            None => found,
        };
        self.gpu_source = Some(source);
        let gate = match self.xid_gate {
            Some(g) => g,
            None => xid_scan_gate(source, journalctl),
        };
        self.xid_gate = Some(gate);
        let nvidia = source == GpuSource::Nvidia;
        let load_nvml = nvidia && !self.nvml_tried;
        if load_nvml {
            self.nvml_tried = true;
        }
        if self.kind.is_none() {
            self.kind = pinned;
        }
        let mut journal: Option<String> = None;
        let mut journal_gap: Option<(i64, i64)> = None;
        if gate.should_scan() {
            let w = hot_window(self.xid_since, now);
            journal = Some(hot_journal_script(w.0));
            journal_gap = w.1;
        }
        let want_health = crate::cycle::is_due(now, self.health_at, HEALTH_EVERY_SECS);
        if want_health {
            self.health_at = now;
        }
        let logs_since: Option<String> = if gate_container.is_empty() {
            None
        } else {
            match &self.log_cursor {
                Some(c) => Some(c.clone()),
                None => Some("10m".to_owned()),
            }
        };
        Ask {
            source,
            refresh_pci: nvidia && !pci_known,
            load_nvml,
            journal,
            journal_gap,
            want_health,
            logs_since,
        }
    }

    /// Whether the extended field list is asked again, after an answer of this many rows and these
    /// words: a driver that refuses it is never asked again.
    pub fn smi_falls_back(&mut self, parsed: usize, said: &str) -> (r: bool)
        ensures
            r == refused(parsed as nat, said@),
            *final(self) == (Poller { smi_ext_ok: old(self).smi_ext_ok && !r, ..*old(self) }),
    {
        if parsed == 0 && contains(said, "not a valid field") {
            self.smi_ext_ok = false;
            true
        } else {
            false
        }
    }
}

/// The name of the engine's container: the configured one, or with `auto` the first that publishes
/// the engine's port, else the one known before.
pub open spec fn serve_name(
    configured: Seq<char>,
    published: Option<Seq<char>>,
    known: Option<Seq<char>>,
) -> Option<Seq<char>> {
    if configured != "auto"@ {
        Some(configured)
    } else {
        match published {
            Some(p) if lines_of(p).len() > 0 && lines_of(p)[0].len() > 0 => Some(lines_of(p)[0]),
            _ => known,
        }
    }
}

/// The name of the engine's container: the configured one, or with `auto` the first that publishes
/// the engine's port, else the one known before.
pub fn serve_container_name(
    configured: &str,
    published: Option<&str>,
    known: &Option<String>,
) -> (r: Option<String>)
    ensures
        opt_view(r) == serve_name(configured@, opt_str(published), opt_view(*known)),
{
    if !same(configured, "auto") {
        return Some(configured.to_owned());
    }
    if let Some(p) = published {
        let ls = lines(p);
        assert(views(ls@).len() == ls@.len());
        if ls.len() > 0 {
            assert(views(ls@)[0] == ls@[0]@);
            if !ls[0].as_str().is_empty() {
                return Some(ls[0].clone());
            }
        }
    }
    match known {
        Some(k) => Some(k.clone()),
        None => None,
    }
}

/// The engine's container is the one that is configured; with `auto` it is the first that is published,
/// and the one known before where none is.
pub proof fn law_the_container_is_the_one_named(
    configured: Seq<char>,
    published: Option<Seq<char>>,
    known: Option<Seq<char>>,
)
    ensures
        configured != "auto"@ ==> serve_name(configured, published, known) == Some(configured),
        configured == "auto"@ ==> match published {
            Some(p) => if lines_of(p).len() > 0 && lines_of(p).first().len() > 0 {
                serve_name(configured, published, known) == Some(lines_of(p).first())
            } else {
                serve_name(configured, published, known) == known
            },
            None => serve_name(configured, published, known) == known,
        },
{
}

/// Which containers are inspected: the engine's, then the gateway's, as far as either is named.
/// With none there is nothing to ask.
pub fn inspected(serve: &Option<String>, gate_container: &str) -> (r: Vec<String>)
    ensures
        views(r@) == (match *serve {
            Some(n) => seq![n@],
            None => Seq::empty(),
        }) + (if gate_container@.len() > 0 {
            seq![gate_container@]
        } else {
            Seq::empty()
        }),
{
    let mut out: Vec<String> = Vec::new();
    if let Some(n) = serve {
        out.push(n.clone());
    }
    if !gate_container.is_empty() {
        out.push(gate_container.to_owned());
    }
    out
}

/// What the gateway's health page came to: nothing where there is no gateway, an error where it was
/// not readable or did not parse.
pub fn gate_reply<H>(has_gate: bool, read: Result<Option<H>, String>) -> (r: Result<H, String>)
    ensures
        !has_gate ==> r is Err && r->Err_0@.len() == 0,
        has_gate ==> match read {
            Ok(Some(h)) => r == Ok::<H, String>(h),
            Ok(None) => r is Err && r->Err_0@ == "bad JSON from /gate/health"@,
            Err(e) => r == Err::<H, String>(e),
        },
{
    if !has_gate {
        return Err(String::new());
    }
    match read {
        Ok(Some(h)) => Ok(h),
        Ok(None) => Err("bad JSON from /gate/health".to_owned()),
        Err(e) => Err(e),
    }
}

/// Remembered kernel lines as values.
pub open spec fn seen_view(q: Seq<(i64, String)>) -> Seq<(i64, Seq<char>)> {
    q.map_values(|e: (i64, String)| (e.0, e.1@))
}

/// Journal lines as values: each with the time of the Xid that it reports, if it reports one.
pub open spec fn lines_view(v: Seq<(String, Option<i64>)>) -> Seq<(Seq<char>, Option<i64>)> {
    v.map_values(|e: (String, Option<i64>)| (e.0@, e.1))
}

/// Whether a line is among the remembered ones.
pub open spec fn is_seen(seen: Seq<(i64, Seq<char>)>, line: Seq<char>) -> bool {
    exists|i: int| 0 <= i < seen.len() && (#[trigger] seen[i]).1 == line
}

/// Remembered lines after `lines` have been read: each new report is added.
pub open spec fn seen_after(
    seen: Seq<(i64, Seq<char>)>,
    lines: Seq<(Seq<char>, Option<i64>)>,
) -> Seq<(i64, Seq<char>)>
    decreases lines.len(),
{
    if lines.len() == 0 {
        seen
    } else {
        let before = seen_after(seen, lines.drop_last());
        let l = lines.last();
        if l.1 is Some && !is_seen(before, l.0) {
            before.push((l.1->0, l.0))
        } else {
            before
        }
    }
}

/// Which of `lines` are reported: those that report an Xid and were not seen before them.
pub open spec fn reported(
    seen: Seq<(i64, Seq<char>)>,
    lines: Seq<(Seq<char>, Option<i64>)>,
) -> Seq<int>
    decreases lines.len(),
{
    if lines.len() == 0 {
        Seq::empty()
    } else {
        let before = reported(seen, lines.drop_last());
        let l = lines.last();
        if l.1 is Some && !is_seen(seen_after(seen, lines.drop_last()), l.0) {
            before.push(lines.len() - 1)
        } else {
            before
        }
    }
}

/// Remembered lines without those at the front that are older than `cut`.
pub open spec fn forget(seen: Seq<(i64, Seq<char>)>, cut: int) -> Seq<(i64, Seq<char>)>
    decreases seen.len(),
{
    if seen.len() > 0 && seen[0].0 < cut {
        forget(seen.drop_first(), cut)
    } else {
        seen
    }
}

/// Indices as mathematical integers.
pub open spec fn ints(v: Seq<usize>) -> Seq<int> {
    v.map_values(|i: usize| i as int)
}

impl Poller {
    fn has_seen(&self, line: &str) -> (r: bool)
        ensures
            r == is_seen(seen_view(self.xid_seen@), line@),
    {
        let mut i: usize = 0;
        let ghost seen = seen_view(self.xid_seen@);
        while i < self.xid_seen.len()
            invariant
                i <= self.xid_seen@.len(),
                seen == seen_view(self.xid_seen@),
                forall|j: int| 0 <= j < i ==> (#[trigger] seen[j]).1 != line@,
            decreases self.xid_seen@.len() - i,
        {
            if same(self.xid_seen[i].1.as_str(), line) {
                assert(seen[i as int].1 == line@);
                return true;
            }
            i += 1;
        }
        false
    }

    /// Takes the lines of a journal that was read, or `None` where it was not, and returns which of
    /// them are new reports. What is older than `XID_DEDUPE_SECS` is forgotten.
    pub fn take_journal(&mut self, now: i64, journal: &Option<Vec<(String, Option<i64>)>>) -> (r: Vec<
        usize,
    >)
        requires
            now - XID_DEDUPE_SECS >= i64::MIN,
        ensures
            ints(r@) == (match *journal {
                Some(ls) => reported(seen_view(old(self).xid_seen@), lines_view(ls@)),
                None => Seq::empty(),
            }),
            seen_view(final(self).xid_seen@) == forget(
                match *journal {
                    Some(ls) => seen_after(seen_view(old(self).xid_seen@), lines_view(ls@)),
                    None => seen_view(old(self).xid_seen@),
                },
                now - XID_DEDUPE_SECS,
            ),
            *final(self) == (Poller {
                xid_since: if journal is Some {
                    now
                } else {
                    old(self).xid_since
                },
                xid_seen: final(self).xid_seen,
                ..*old(self)
            }),
    {
        let mut out: Vec<usize> = Vec::new();
        let ghost seen0 = seen_view(self.xid_seen@);
        let ghost p0 = *self;
        if let Some(ls) = journal {
            let ghost all = lines_view(ls@);
            let mut i: usize = 0;
            assert(ints(out@) =~= reported(seen0, all.take(0)));
            while i < ls.len()
                invariant
                    i <= ls@.len(),
                    all == lines_view(ls@),
                    seen_view(self.xid_seen@) == seen_after(seen0, all.take(i as int)),
                    ints(out@) == reported(seen0, all.take(i as int)),
                    *self == (Poller { xid_seen: self.xid_seen, ..p0 }),
                decreases ls@.len() - i,
            {
                proof {
                    assert(all.take(i + 1).drop_last() =~= all.take(i as int));
                    assert(all.take(i + 1).last() == (ls@[i as int].0@, ls@[i as int].1));
                }
                if let Some(ts) = ls[i].1 {
                    if !self.has_seen(ls[i].0.as_str()) {
                        let ghost before = self.xid_seen@;
                        let ghost out0 = out@;
                        self.xid_seen.push_back((ts, ls[i].0.clone()));
                        out.push(i);
                        proof {
                            assert(seen_view(self.xid_seen@) =~= seen_view(before).push(
                                (ts, ls@[i as int].0@),
                            ));
                            assert(ints(out@) =~= ints(out0).push(i as int));
                        }
                    }
                }
                i += 1;
            }
            assert(all.take(all.len() as int) =~= all);
            self.xid_since = now;
        }
        let ghost p1 = *self;
        let ghost seen1 = seen_view(self.xid_seen@);
        let cut: i64 = now - XID_DEDUPE_SECS;
        while self.xid_seen.len() > 0 && self.xid_seen[0].0 < cut
            invariant
                forget(seen1, cut as int) == forget(seen_view(self.xid_seen@), cut as int),
                *self == (Poller { xid_seen: self.xid_seen, ..p1 }),
            decreases self.xid_seen@.len(),
        {
            let ghost before = self.xid_seen@;
            let _ = self.xid_seen.pop_front();
            assert(seen_view(self.xid_seen@) =~= seen_view(before).drop_first());
        }
        out
    }
}

/// Whatever a read reported or knew is known after it.
proof fn lemma_seen_stays(seen: Seq<(i64, Seq<char>)>, lines: Seq<(Seq<char>, Option<i64>)>)
    ensures
        forall|l: Seq<char>| is_seen(seen, l) ==> #[trigger] is_seen(seen_after(seen, lines), l),
        forall|i: int|
            0 <= i < lines.len() && (#[trigger] lines[i]).1 is Some ==> is_seen(
                seen_after(seen, lines),
                lines[i].0,
            ),
    decreases lines.len(),
{
    if lines.len() > 0 {
        let rest = lines.drop_last();
        lemma_seen_stays(seen, rest);
        let before = seen_after(seen, rest);
        let after = seen_after(seen, lines);
        assert forall|l: Seq<char>| is_seen(before, l) implies #[trigger] is_seen(after, l) by {
            let k = choose|k: int| 0 <= k < before.len() && (#[trigger] before[k]).1 == l;
            assert(after[k] == before[k]);
        }
        assert forall|i: int| 0 <= i < lines.len() && (#[trigger] lines[i]).1 is Some implies is_seen(
            after,
            lines[i].0,
        ) by {
            if i < rest.len() {
                assert(rest[i] == lines[i]);
            } else if !is_seen(before, lines[i].0) {
                assert(after.last().1 == lines[i].0);
            }
        }
    }
}

proof fn lemma_nothing_new(seen: Seq<(i64, Seq<char>)>, again: Seq<(Seq<char>, Option<i64>)>)
    requires
        forall|i: int|
            0 <= i < again.len() && (#[trigger] again[i]).1 is Some ==> is_seen(seen, again[i].0),
    ensures
        reported(seen, again) == Seq::<int>::empty(),
        seen_after(seen, again) == seen,
    decreases again.len(),
{
    if again.len() > 0 {
        let rest = again.drop_last();
        assert forall|i: int| 0 <= i < rest.len() && (#[trigger] rest[i]).1 is Some implies is_seen(
            seen,
            rest[i].0,
        ) by {
            assert(rest[i] == again[i]);
        }
        lemma_nothing_new(seen, rest);
        assert(again[again.len() - 1] == again.last());
    }
}

/// A line of the journal is reported exactly where it reports an Xid, is not among the remembered ones,
/// and is the first of its text that was read. What is reported comes in the order it was read.
pub proof fn law_new_xids_are_reported(
    seen: Seq<(i64, Seq<char>)>,
    lines: Seq<(Seq<char>, Option<i64>)>,
    i: int,
)
    ensures
        reported(seen, lines).contains(i) <==> {
            &&& 0 <= i < lines.len()
            &&& lines[i].1 is Some
            &&& forall|k: int| 0 <= k < seen.len() ==> (#[trigger] seen[k]).1 != lines[i].0
            &&& forall|j: int| 0 <= j < i && (#[trigger] lines[j]).1 is Some ==> lines[j].0 != lines[i].0
        },
        forall|a: int, b: int|
            0 <= a < b < reported(seen, lines).len() ==> reported(seen, lines)[a] < reported(
                seen,
                lines,
            )[b],
    decreases lines.len(),
{
    let r = reported(seen, lines);
    if lines.len() == 0 {
        assert(!r.contains(i));
    } else {
        let rest = lines.drop_last();
        let n = lines.len() - 1;
        law_new_xids_are_reported(seen, rest, i);
        let before = reported(seen, rest);
        let l = lines.last();
        lemma_seen_stays(seen, rest);
        lemma_reported_inside(seen, rest);
        let new = l.1 is Some && !is_seen(seen_after(seen, rest), l.0);
        assert(new <==> l.1 is Some && (forall|k: int|
            0 <= k < seen.len() ==> (#[trigger] seen[k]).1 != l.0) && (forall|j: int|
            0 <= j < n && (#[trigger] lines[j]).1 is Some ==> lines[j].0 != l.0)) by {
            lemma_seen_from(seen, rest, l.0);
            if new {
                assert forall|k: int| 0 <= k < seen.len() implies (#[trigger] seen[k]).1 != l.0 by {
                    if seen[k].1 == l.0 {
                        assert(is_seen(seen, l.0));
                    }
                }
                assert forall|j: int| 0 <= j < n && (#[trigger] lines[j]).1 is Some implies lines[j].0
                    != l.0 by {
                    assert(rest[j] == lines[j]);
                }
            } else if l.1 is Some {
                if !is_seen(seen, l.0) {
                    let j = choose|j: int|
                        0 <= j < rest.len() && (#[trigger] rest[j]).1 is Some && rest[j].0 == l.0;
                    assert(lines[j] == rest[j]);
                } else {
                    let k = choose|k: int| 0 <= k < seen.len() && (#[trigger] seen[k]).1 == l.0;
                    assert(seen[k].1 == l.0);
                }
            }
        }
        if i == n {
            if before.contains(i) {
                let a = choose|a: int| 0 <= a < before.len() && before[a] == i;
                assert(before[a] < n);
            }
            if new {
                assert(r.last() == i);
            }
        } else {
            assert(r.contains(i) == before.contains(i)) by {
                if before.contains(i) {
                    let a = choose|a: int| 0 <= a < before.len() && before[a] == i;
                    assert(r[a] == i);
                }
                if r.contains(i) {
                    let a = choose|a: int| 0 <= a < r.len() && r[a] == i;
                    assert(before[a] == i);
                }
            }
            if 0 <= i < n {
                assert(rest[i] == lines[i]);
                if forall|j: int|
                    0 <= j < i && (#[trigger] lines[j]).1 is Some ==> lines[j].0 != lines[i].0 {
                    assert forall|j: int| 0 <= j < i && (#[trigger] rest[j]).1 is Some implies rest[j].0
                        != rest[i].0 by {
                        assert(lines[j] == rest[j]);
                    }
                }
                if forall|j: int|
                    0 <= j < i && (#[trigger] rest[j]).1 is Some ==> rest[j].0 != rest[i].0 {
                    assert forall|j: int| 0 <= j < i && (#[trigger] lines[j]).1 is Some implies lines[j].0
                        != lines[i].0 by {
                        assert(rest[j] == lines[j]);
                    }
                }
            }
        }
    }
}

proof fn lemma_reported_inside(seen: Seq<(i64, Seq<char>)>, lines: Seq<(Seq<char>, Option<i64>)>)
    ensures
        forall|a: int|
            0 <= a < reported(seen, lines).len() ==> 0 <= #[trigger] reported(seen, lines)[a]
                < lines.len(),
    decreases lines.len(),
{
    if lines.len() > 0 {
        let before = reported(seen, lines.drop_last());
        let after = reported(seen, lines);
        lemma_reported_inside(seen, lines.drop_last());
        assert forall|a: int| 0 <= a < after.len() implies 0 <= #[trigger] after[a] < lines.len() by {
            if a < before.len() {
                assert(after[a] == before[a]);
            }
        }
    }
}

// What is known after a read was known before it, or is the text of a line that reports an Xid.
proof fn lemma_seen_from(
    seen: Seq<(i64, Seq<char>)>,
    lines: Seq<(Seq<char>, Option<i64>)>,
    text: Seq<char>,
)
    ensures
        is_seen(seen_after(seen, lines), text) ==> is_seen(seen, text) || exists|j: int|
            0 <= j < lines.len() && (#[trigger] lines[j]).1 is Some && lines[j].0 == text,
    decreases lines.len(),
{
    if lines.len() > 0 {
        let rest = lines.drop_last();
        lemma_seen_from(seen, rest, text);
        let before = seen_after(seen, rest);
        let after = seen_after(seen, lines);
        if is_seen(after, text) {
            let k = choose|k: int| 0 <= k < after.len() && (#[trigger] after[k]).1 == text;
            if k < before.len() {
                assert(before[k].1 == text);
                if !is_seen(seen, text) {
                    let j = choose|j: int|
                        0 <= j < rest.len() && (#[trigger] rest[j]).1 is Some && rest[j].0 == text;
                    assert(lines[j] == rest[j]);
                }
            } else {
                assert(lines[lines.len() - 1].0 == text);
            }
        }
    }
}

/// Nothing at the front of what is remembered is older than the cut.
pub proof fn law_the_old_are_forgotten(seen: Seq<(i64, Seq<char>)>, cut: int)
    ensures
        forget(seen, cut).len() > 0 ==> forget(seen, cut)[0].0 >= cut,
    decreases seen.len(),
{
    if seen.len() > 0 && seen[0].0 < cut {
        law_the_old_are_forgotten(seen.drop_first(), cut);
    }
}

/// Only what is older than the cut is forgotten, and what is kept stays in order.
pub proof fn law_forget_keeps_the_young(seen: Seq<(i64, Seq<char>)>, cut: int)
    ensures
        forall|i: int|
            0 <= i < seen.len() && (#[trigger] seen[i]).0 >= cut ==> is_seen(
                forget(seen, cut),
                seen[i].1,
            ),
        forget(seen, cut).len() <= seen.len(),
        forget(seen, cut) == seen.skip(seen.len() - forget(seen, cut).len()),
    decreases seen.len(),
{
    if seen.len() > 0 && seen[0].0 < cut {
        let rest = seen.drop_first();
        law_forget_keeps_the_young(rest, cut);
        assert forall|i: int| 0 <= i < seen.len() && (#[trigger] seen[i]).0 >= cut implies is_seen(
            forget(seen, cut),
            seen[i].1,
        ) by {
            assert(rest[i - 1] == seen[i]);
        }
        assert(rest.skip(rest.len() - forget(rest, cut).len()) =~= seen.skip(
            seen.len() - forget(seen, cut).len(),
        ));
    } else {
        assert(seen.skip(0) =~= seen);
        assert forall|i: int| 0 <= i < seen.len() && (#[trigger] seen[i]).0 >= cut implies is_seen(
            forget(seen, cut),
            seen[i].1,
        ) by {
            assert(forget(seen, cut)[i] == seen[i]);
        }
    }
}

/// What is remembered after a poll that read `lines` and forgot what is older than `cut`.
pub open spec fn seen_after_poll(
    seen: Seq<(i64, Seq<char>)>,
    lines: Seq<(Seq<char>, Option<i64>)>,
    cut: int,
) -> Seq<(i64, Seq<char>)> {
    forget(seen_after(seen, lines), cut)
}

/// What is remembered after several polls, each with the lines it read and its cut.
pub open spec fn seen_after_polls(
    seen: Seq<(i64, Seq<char>)>,
    polls: Seq<(Seq<(Seq<char>, Option<i64>)>, int)>,
) -> Seq<(i64, Seq<char>)>
    decreases polls.len(),
{
    if polls.len() == 0 {
        seen
    } else {
        seen_after_poll(seen_after_polls(seen, polls.drop_last()), polls.last().0, polls.last().1)
    }
}

/// Whether lines that report an Xid report it with the time that their text gives.
pub open spec fn are_timed(
    lines: Seq<(Seq<char>, Option<i64>)>,
    time: spec_fn(Seq<char>) -> i64,
) -> bool {
    forall|i: int|
        0 <= i < lines.len() && (#[trigger] lines[i]).1 is Some ==> lines[i].1->0 == time(lines[i].0)
}

/// Whether remembered lines have the time that their text gives.
pub open spec fn is_timed(
    seen: Seq<(i64, Seq<char>)>,
    time: spec_fn(Seq<char>) -> i64,
) -> bool {
    forall|i: int| 0 <= i < seen.len() ==> (#[trigger] seen[i]).0 == time(seen[i].1)
}

proof fn lemma_stays_timed(
    seen: Seq<(i64, Seq<char>)>,
    lines: Seq<(Seq<char>, Option<i64>)>,
    time: spec_fn(Seq<char>) -> i64,
)
    requires
        is_timed(seen, time),
        are_timed(lines, time),
    ensures
        is_timed(seen_after(seen, lines), time),
    decreases lines.len(),
{
    if lines.len() > 0 {
        let rest = lines.drop_last();
        assert forall|i: int| 0 <= i < rest.len() && (#[trigger] rest[i]).1 is Some implies rest[i].1->0
            == time(rest[i].0) by {
            assert(rest[i] == lines[i]);
        }
        lemma_stays_timed(seen, rest, time);
        assert(lines[lines.len() - 1] == lines.last());
    }
}

// A poll keeps what it knew and what it read, as far as that is not older than its cut.
proof fn lemma_poll_keeps(
    seen: Seq<(i64, Seq<char>)>,
    lines: Seq<(Seq<char>, Option<i64>)>,
    cut: int,
    time: spec_fn(Seq<char>) -> i64,
)
    requires
        is_timed(seen, time),
        are_timed(lines, time),
    ensures
        is_timed(seen_after_poll(seen, lines, cut), time),
        forall|l: Seq<char>|
            is_seen(seen, l) && time(l) >= cut ==> #[trigger] is_seen(
                seen_after_poll(seen, lines, cut),
                l,
            ),
        forall|i: int|
            0 <= i < lines.len() && (#[trigger] lines[i]).1 is Some && lines[i].1->0 >= cut ==> is_seen(
                seen_after_poll(seen, lines, cut),
                lines[i].0,
            ),
{
    let all = seen_after(seen, lines);
    let kept = seen_after_poll(seen, lines, cut);
    lemma_stays_timed(seen, lines, time);
    lemma_seen_stays(seen, lines);
    law_forget_keeps_the_young(all, cut);
    assert forall|l: Seq<char>| is_seen(all, l) && time(l) >= cut implies #[trigger] is_seen(kept, l) by {
        let k = choose|k: int| 0 <= k < all.len() && (#[trigger] all[k]).1 == l;
        assert(all[k].0 == time(l));
    }
    assert forall|i: int| 0 <= i < kept.len() implies (#[trigger] kept[i]).0 == time(kept[i].1) by {
        assert(kept[i] == all[all.len() - kept.len() + i]);
    }
    assert forall|l: Seq<char>| is_seen(seen, l) && time(l) >= cut implies #[trigger] is_seen(kept, l) by {
        assert(is_seen(all, l));
    }
    assert forall|i: int| 0 <= i < lines.len() && (#[trigger] lines[i]).1 is Some && lines[i].1->0
        >= cut implies is_seen(kept, lines[i].0) by {
        assert(is_seen(all, lines[i].0));
    }
}

proof fn lemma_polls_keep(
    seen: Seq<(i64, Seq<char>)>,
    polls: Seq<(Seq<(Seq<char>, Option<i64>)>, int)>,
    time: spec_fn(Seq<char>) -> i64,
    l: Seq<char>,
)
    requires
        is_timed(seen, time),
        forall|k: int| 0 <= k < polls.len() ==> are_timed((#[trigger] polls[k]).0, time),
    ensures
        is_timed(seen_after_polls(seen, polls), time),
        is_seen(seen, l) && (forall|k: int| 0 <= k < polls.len() ==> time(l) >= (#[trigger] polls[k]).1)
            ==> is_seen(seen_after_polls(seen, polls), l),
    decreases polls.len(),
{
    if polls.len() > 0 {
        let rest = polls.drop_last();
        assert forall|k: int| 0 <= k < rest.len() implies are_timed((#[trigger] rest[k]).0, time) by {
            assert(rest[k] == polls[k]);
        }
        lemma_polls_keep(seen, rest, time, l);
        let last = polls[polls.len() - 1];
        lemma_poll_keeps(seen_after_polls(seen, rest), last.0, last.1, time);
        if is_seen(seen, l) && (forall|k: int|
            0 <= k < polls.len() ==> time(l) >= (#[trigger] polls[k]).1) {
            assert forall|k: int| 0 <= k < rest.len() implies time(l) >= (#[trigger] rest[k]).1 by {
                assert(rest[k] == polls[k]);
            }
            assert(time(l) >= last.1);
        }
    }
}

/// A kernel line is reported once: after a poll that read it, and any polls since, a read of it once
/// more reports nothing and remembers nothing new, as long as its Xid is not older than what any of
/// those polls forgot.
pub proof fn law_xid_reported_once(
    seen: Seq<(i64, Seq<char>)>,
    lines: Seq<(Seq<char>, Option<i64>)>,
    cut: int,
    since: Seq<(Seq<(Seq<char>, Option<i64>)>, int)>,
    again: Seq<(Seq<char>, Option<i64>)>,
    time: spec_fn(Seq<char>) -> i64,
)
    requires
        is_timed(seen, time),
        are_timed(lines, time),
        forall|k: int| 0 <= k < since.len() ==> are_timed((#[trigger] since[k]).0, time),
        forall|i: int| 0 <= i < again.len() ==> lines.contains(#[trigger] again[i]),
        forall|i: int| 0 <= i < again.len() && (#[trigger] again[i]).1 is Some ==> again[i].1->0 >= cut,
        forall|i: int, k: int|
            0 <= i < again.len() && 0 <= k < since.len() && (#[trigger] again[i]).1 is Some
                ==> again[i].1->0 >= (#[trigger] since[k]).1,
    ensures
        ({
            let known = seen_after_polls(seen_after_poll(seen, lines, cut), since);
            &&& reported(known, again) == Seq::<int>::empty()
            &&& seen_after(known, again) == known
        }),
{
    let first = seen_after_poll(seen, lines, cut);
    let known = seen_after_polls(first, since);
    lemma_poll_keeps(seen, lines, cut, time);
    assert forall|i: int| 0 <= i < again.len() && (#[trigger] again[i]).1 is Some implies is_seen(
        known,
        again[i].0,
    ) by {
        let j = choose|j: int| 0 <= j < lines.len() && lines[j] == again[i];
        assert(lines[j].1 is Some);
        assert(is_seen(first, lines[j].0));
        assert(time(again[i].0) == again[i].1->0);
        assert forall|k: int| 0 <= k < since.len() implies time(again[i].0) >= (#[trigger] since[k]).1 by {
        }
        lemma_polls_keep(first, since, time, again[i].0);
    }
    lemma_nothing_new(known, again);
}

/// What the engine's metrics say of its writing speed.
#[derive(Clone, Copy, PartialEq, Eq, Structural, Debug)]
pub struct Counter {
    /// the engine publishes no speed of its own
    pub no_speed: bool,
    /// the token counter is not below the one remembered
    pub not_less: bool,
}

/// What the sources of one poll answered.
pub struct Replies {
    pub model: Result<String, String>,
    /// the kind that the engine was recognised as
    pub seen_kind: Option<EngineKind>,
    /// the numbers that the engine does not publish
    pub not_reported: Vec<String>,
    pub counter: Option<Counter>,
    /// what the gateway's health page failed with
    pub gate_error: Option<String>,
    pub serve_name: Option<String>,
    /// the names of the containers that were inspected
    pub containers: Vec<String>,
    /// where the gateway's log ends, where it was read and has an end
    pub cursor: Option<String>,
    pub journal: Option<Vec<(String, Option<i64>)>>,
}

/// What a poll comes to.
pub struct Outcome {
    pub serve_up: bool,
    pub serve_detail: String,
    pub gate_detail: String,
    /// which journal lines are new reports
    pub xids: Vec<usize>,
    pub journal_ok: bool,
    pub journal_gap: Option<(i64, i64)>,
    /// which of the inspected containers is the engine's, and which the gateway's
    pub serve_ct: Option<usize>,
    pub gate_ct: Option<usize>,
    /// the seconds between two readings of the token counter, where the speed is taken from them
    pub speed_over: Option<i64>,
}

/// Whether a name is in a list.
pub open spec fn listed(names: Seq<Seq<char>>, name: Seq<char>) -> bool {
    exists|i: int| 0 <= i < names.len() && #[trigger] names[i] == name
}

/// Whether a name is in a list.
pub fn is_listed(names: &Vec<String>, name: &str) -> (r: bool)
    ensures
        r == listed(views(names@), name@),
{
    let mut i: usize = 0;
    let ghost all = views(names@);
    while i < names.len()
        invariant
            i <= names@.len(),
            all == views(names@),
            forall|j: int| 0 <= j < i ==> #[trigger] all[j] != name@,
        decreases names@.len() - i,
    {
        if same(names[i].as_str(), name) {
            assert(all[i as int] == name@);
            return true;
        }
        i += 1;
    }
    false
}

/// The first place of a name in a list.
pub open spec fn is_first(names: Seq<Seq<char>>, name: Seq<char>, r: Option<usize>) -> bool {
    match r {
        Some(i) => i < names.len() && names[i as int] == name && forall|j: int|
            0 <= j < i ==> #[trigger] names[j] != name,
        None => !listed(names, name),
    }
}

/// The first place of a name in a list.
pub fn place_of(names: &Vec<String>, name: &str) -> (r: Option<usize>)
    ensures
        is_first(views(names@), name@, r),
{
    let mut i: usize = 0;
    let ghost all = views(names@);
    while i < names.len()
        invariant
            i <= names@.len(),
            all == views(names@),
            forall|j: int| 0 <= j < i ==> #[trigger] all[j] != name@,
        decreases names@.len() - i,
    {
        if same(names[i].as_str(), name) {
            return Some(i);
        }
        i += 1;
    }
    None
}

/// The kind that a poll ends with: the one known, else the one just seen.
pub open spec fn kind_after(p: Poller, r: Replies) -> Option<EngineKind> {
    if p.kind is Some {
        p.kind
    } else {
        r.seen_kind
    }
}

/// Whether the token counter of this poll is read for a speed: the engine publishes the counter,
/// and it is not one that publishes the speed itself.
pub open spec fn reads_counter(p: Poller, r: Replies) -> bool {
    r.counter is Some && kind_after(p, r) != Some(EngineKind::Sglang)
}

/// The span from which the speed is taken: two readings at most a minute apart, of a counter that
/// did not fall, of an engine that publishes no speed.
pub open spec fn speed_span(p: Poller, now: i64, r: Replies) -> Option<i64> {
    if reads_counter(p, r) && !listed(views(r.not_reported@), "tokens"@) && r.counter->0.no_speed
        && r.counter->0.not_less && p.counter_at is Some && 0 < now - p.counter_at->0 <= 60 {
        Some((now - p.counter_at->0) as i64)
    } else {
        None
    }
}

/// The speed is taken from two readings of the token counter exactly where there are two, of an engine
/// other than SGLang that reports its tokens and publishes no speed of its own: more than none and at
/// most sixty seconds apart, and the counter did not fall. It is then taken over the seconds between
/// them. An engine that publishes its speed keeps it.
pub proof fn law_speed_is_taken_from_two_readings(p: Poller, now: i64, r: Replies, dt: i64)
    ensures
        speed_span(p, now, r) == Some(dt) <==> {
            &&& r.counter is Some
            &&& r.counter->0.no_speed
            &&& r.counter->0.not_less
            &&& !views(r.not_reported@).contains("tokens"@)
            &&& (match p.kind {
                Some(k) => k != EngineKind::Sglang,
                None => r.seen_kind != Some(EngineKind::Sglang),
            })
            &&& p.counter_at is Some
            &&& now == p.counter_at->0 + dt
            &&& 0 < dt <= 60
        },
        r.counter is Some && !r.counter->0.no_speed ==> speed_span(p, now, r) is None,
{
    lemma_listed_is_contained(views(r.not_reported@), "tokens"@);
}

proof fn lemma_listed_is_contained(names: Seq<Seq<char>>, name: Seq<char>)
    ensures
        listed(names, name) == names.contains(name),
{
    if listed(names, name) {
        let k = choose|k: int| 0 <= k < names.len() && #[trigger] names[k] == name;
        assert(names.contains(names[k]));
    }
    if names.contains(name) {
        let k = choose|k: int| 0 <= k < names.len() && names[k] == name;
        assert(names[k] == name);
    }
}

/// The line that says why a source did not answer.
pub open spec fn failure_line(what: Seq<char>, why: Option<Seq<char>>) -> Seq<char> {
    match why {
        Some(e) => what + e,
        None => Seq::empty(),
    }
}

impl Poller {
    /// What the answers of one poll come to.
    pub fn take(&mut self, now: i64, gap: Option<(i64, i64)>, gate_container: &str, r: Replies) -> (o:
        Outcome)
        requires
            now - XID_DEDUPE_SECS >= i64::MIN,
        ensures
            o.serve_up == r.model is Ok,
            o.serve_detail@ == failure_line(
                "/v1/models: "@,
                match r.model {
                    Ok(_) => None,
                    Err(e) => Some(e@),
                },
            ),
            o.gate_detail@ == failure_line(
                "/gate/health: "@,
                match r.gate_error {
                    Some(e) if e@.len() > 0 => Some(e@),
                    _ => None,
                },
            ),
            ints(o.xids@) == (match r.journal {
                Some(ls) => reported(seen_view(old(self).xid_seen@), lines_view(ls@)),
                None => Seq::empty(),
            }),
            o.journal_ok == r.journal is Some,
            o.journal_gap == (if r.journal is Some {
                gap
            } else {
                None::<(i64, i64)>
            }),
            match r.serve_name {
                Some(n) => is_first(views(r.containers@), n@, o.serve_ct),
                None => o.serve_ct is None,
            },
            if gate_container@.len() > 0 {
                is_first(views(r.containers@), gate_container@, o.gate_ct)
            } else {
                o.gate_ct is None
            },
            o.speed_over == speed_span(*old(self), now, r),
            o.speed_over matches Some(dt) ==> r.counter is Some && r.counter->0.no_speed
                && r.counter->0.not_less && 0 < dt <= 60 && old(self).counter_at is Some && now
                == old(self).counter_at->0 + dt,
            r.counter is Some && r.counter->0.no_speed && r.counter->0.not_less && !views(
                r.not_reported@,
            ).contains("tokens"@) && (if old(self).kind is Some {
                old(self).kind
            } else {
                r.seen_kind
            }) != Some(EngineKind::Sglang) && old(self).counter_at is Some && 0 < now
                - old(self).counter_at->0 <= 60 ==> o.speed_over == Some(
                (now - old(self).counter_at->0) as i64,
            ),
            seen_view(final(self).xid_seen@) == forget(
                match r.journal {
                    Some(ls) => seen_after(seen_view(old(self).xid_seen@), lines_view(ls@)),
                    None => seen_view(old(self).xid_seen@),
                },
                now - XID_DEDUPE_SECS,
            ),
            *final(self) == (Poller {
                kind: kind_after(*old(self), r),
                counter_at: if !reads_counter(*old(self), r) {
                    old(self).counter_at
                } else if listed(views(r.not_reported@), "tokens"@) {
                    None
                } else {
                    Some(now)
                },
                serve_container: if r.serve_name is Some {
                    r.serve_name
                } else {
                    old(self).serve_container
                },
                log_cursor: if r.cursor is Some {
                    r.cursor
                } else {
                    old(self).log_cursor
                },
                xid_since: if r.journal is Some {
                    now
                } else {
                    old(self).xid_since
                },
                xid_seen: final(self).xid_seen,
                ..*old(self)
            }),
    {
        proof {
            lemma_listed_is_contained(views(r.not_reported@), "tokens"@);
        }
        if self.kind.is_none() {
            self.kind = r.seen_kind;
        }
        let mut speed_over: Option<i64> = None;
        if let Some(c) = r.counter {
            let sglang = match self.kind {
                Some(k) => k == EngineKind::Sglang,
                None => false,
            };
            if !sglang {
                let reports = !is_listed(&r.not_reported, "tokens");
                if let Some(at) = self.counter_at {
                    let dt: i128 = now as i128 - at as i128;
                    if reports && c.no_speed && 0 < dt && dt <= 60 && c.not_less {
                        speed_over = Some(dt as i64);
                    }
                }
                self.counter_at = if reports {
                    Some(now)
                } else {
                    None
                };
            }
        }
        let serve_ct: Option<usize> = match &r.serve_name {
            Some(n) => place_of(&r.containers, n.as_str()),
            None => None,
        };
        let gate_ct: Option<usize> = if gate_container.is_empty() {
            None
        } else {
            place_of(&r.containers, gate_container)
        };
        if r.serve_name.is_some() {
            self.serve_container = r.serve_name;
        }
        if r.cursor.is_some() {
            self.log_cursor = r.cursor;
        }
        let xids = self.take_journal(now, &r.journal);
        let journal_ok = r.journal.is_some();
        let mut serve_up = true;
        let mut serve_detail = String::new();
        if let Err(e) = &r.model {
            serve_up = false;
            serve_detail = "/v1/models: ".to_owned();
            serve_detail.append(e.as_str());
        }
        let mut gate_detail = String::new();
        if let Some(e) = &r.gate_error {
            if !e.as_str().is_empty() {
                gate_detail = "/gate/health: ".to_owned();
                gate_detail.append(e.as_str());
            }
        }
        Outcome {
            serve_up,
            serve_detail,
            gate_detail,
            xids,
            journal_ok,
            journal_gap: if journal_ok {
                gap
            } else {
                None
            },
            serve_ct,
            gate_ct,
            speed_over,
        }
    }
}

// ------------------------------------------------------ what is asked and understood

/// The read of the journal asks for the kernel's lines from its start, and to its end where it has
/// one, and keeps those that report an Xid.
pub proof fn law_a_journal_read_asks_for_its_time(since: int, until: i64)
    ensures
        crate::text::holds(hot_script(since), "--since @"@ + dec_int(since) + " "@),
        crate::text::holds(hot_script(since), "grep -F 'NVRM: Xid'"@),
        crate::text::holds(backfill_script_text(since, Some(until)), "--since @"@ + dec_int(since)),
        crate::text::holds(
            backfill_script_text(since, Some(until)),
            "--until @"@ + dec_int(until as int) + " "@,
        ),
        crate::text::holds(backfill_script_text(since, None), "--since @"@ + dec_int(since) + " -o"@),
{
    reveal_strlit("journalctl -k --since @");
    reveal_strlit("--since @");
    reveal_strlit(" -n 5000 -o short-iso --no-pager -q | grep -F 'NVRM: Xid' | head -n 200; true");
    reveal_strlit(" ");
    reveal_strlit(" -o");
    reveal_strlit("grep -F 'NVRM: Xid'");
    let d = dec_int(since);
    let a = "journalctl -k --since @"@;
    let b = " -n 5000 -o short-iso --no-pager -q | grep -F 'NVRM: Xid' | head -n 200; true"@;
    let p = "--since @"@ + d + " "@;
    assert(a =~= a.take(14) + "--since @"@);
    assert(b =~= " "@ + b.skip(1));
    assert(hot_script(since) =~= a.take(14) + p + b.skip(1));
    crate::text::lemma_stands_between(a.take(14), p, b.skip(1));
    let g = "grep -F 'NVRM: Xid'"@;
    assert(b.subrange(38, 57) =~= g);
    assert(b =~= b.take(38) + g + b.skip(57));
    assert(hot_script(since) =~= (a + d + b.take(38)) + g + b.skip(57));
    crate::text::lemma_stands_between(a + d + b.take(38), g, b.skip(57));
    reveal_strlit("nice -n 19 journalctl _TRANSPORT=kernel --since @");
    reveal_strlit(" --until @");
    reveal_strlit("--until @");
    reveal_strlit(" -o short-iso --no-pager -q | grep -F --line-buffered 'NVRM: Xid'; true");
    let c = "nice -n 19 journalctl _TRANSPORT=kernel --since @"@;
    let u = " --until @"@;
    let e = " -o short-iso --no-pager -q | grep -F --line-buffered 'NVRM: Xid'; true"@;
    let t = dec_int(until as int);
    let q = "--since @"@ + d;
    assert(c =~= c.take(40) + "--since @"@);
    let whole = backfill_script_text(since, Some(until));
    assert(whole =~= c.take(40) + q + (u + t + e));
    crate::text::lemma_stands_between(c.take(40), q, u + t + e);
    let v = "--until @"@ + t + " "@;
    assert(u =~= " "@ + "--until @"@);
    assert(e =~= " "@ + e.skip(1));
    assert(whole =~= (c + d + " "@) + v + e.skip(1));
    crate::text::lemma_stands_between(c + d + " "@, v, e.skip(1));
    let open = backfill_script_text(since, None);
    let w = "--since @"@ + d + " -o"@;
    assert(e =~= " -o"@ + e.skip(3));
    assert(open =~= c.take(40) + w + e.skip(3));
    crate::text::lemma_stands_between(c.take(40), w, e.skip(3));
}

/// A page that was read has no fault, and every other has one: a status names its number, and a
/// refused certificate is called so whatever else was said.
pub proof fn law_a_page_that_was_not_read_says_why(f: Fetched, cert: Option<Seq<char>>)
    ensures
        fetch_fault(f, cert) is None <==> f is Body,
        f matches Fetched::Status(code) ==> fetch_fault(f, cert) == Some("HTTP "@ + dec(code as nat)),
        f matches Fetched::Unread(e) ==> crate::text::ends(fetch_fault(f, cert)->0, e@),
        f is Broken && cert is Some ==> fetch_fault(f, cert) == cert,
        f is Broken && cert is None ==> fetch_fault(f, cert)->0.len() <= 80,
{
    if let Fetched::Unread(e) = f {
        let s = fetch_fault(f, cert)->0;
        assert(s.skip(s.len() - e@.len()) =~= e@);
    }
}

/// The process that a line names is the number between its first `pid=` and the comma behind it,
/// whatever stands around them.
pub proof fn law_a_line_names_its_process(a: Seq<char>, pid: nat, rest: Seq<char>)
    requires
        forall|j: int|
            0 <= j < a.len() ==> !#[trigger] crate::text::stands_at(
                a + "pid="@ + dec(pid) + seq![','] + rest,
                "pid="@,
                j,
            ),
    ensures
        pid_field(a + "pid="@ + dec(pid) + seq![','] + rest) == Some(dec(pid)),
{
    reveal_strlit("pid=");
    let p = "pid="@;
    let d = dec(pid);
    let line = a + p + d + seq![','] + rest;
    let n = a.len() as int;
    assert(line.subrange(n, n + 4) =~= p);
    assert(crate::text::stands_at(line, p, n));
    crate::text::lemma_first_at(line, p, 0);
    assert(first_at(line, p, 0) == n);
    let tail = line.skip(n + 4);
    assert(tail =~= d + seq![','] + rest);
    crate::text::law_decimal_reads_back(pid);
    let k = d.len() as int;
    assert forall|j: int| 0 <= j < k implies tail[j] != ',' && tail[j] != 'p' && tail[j] != '=' && tail[j] != 'd' by {
        assert(crate::text::is_digit(d[j]));
    }
    crate::text::lemma_first_at(tail, p, 0);
    let j = first_at(tail, p, 0);
    let part = if j < 0 {
        tail
    } else {
        tail.take(j)
    };
    if j >= 0 {
        let found = tail.subrange(j, j + 4);
        assert(found[0] == 'p');
        assert(tail[j] == 'p');
        assert(tail[k] == ',');
        assert(j > k);
    }
    crate::text::lemma_first_index_is(part, ',', k);
    assert(part.take(k) =~= d);
}

/// The first line about the port that names a process decides; the lines before it that name none are
/// passed over.
pub proof fn law_the_first_line_of_the_port_decides(
    line: Seq<char>,
    rest: Seq<Seq<char>>,
    port: nat,
)
    ensures
        first_pid(Seq::empty(), port) is None,
        first_pid(seq![line] + rest, port) == (if words_of(line).len() > 3 && behind_colon(
            words_of(line)[3],
        ) == dec(port) && pid_field(line) is Some {
            pid_field(line)
        } else {
            first_pid(rest, port)
        }),
{
    assert((seq![line] + rest).drop_first() =~= rest);
}

/// The process that listens is the one that `ss` names, whatever `lsof` says; where `ss` names none it
/// is the first that `lsof` names; and where neither does there is none.
pub proof fn law_ss_goes_before_lsof(
    ss: Option<Seq<char>>,
    lsof: Option<Seq<char>>,
    port: nat,
    pid: u32,
)
    ensures
        ss is Some && first_pid(lines_of(ss->0), port) == Some(dec(pid as nat)) ==> listener(
            ss,
            lsof,
            port,
        ) == Some(pid),
        (ss is None || first_pid(lines_of(ss->0), port) is None) && lsof is Some && lines_of(
            lsof->0,
        ).len() > 0 && trimmed(lines_of(lsof->0)[0]) == dec(pid as nat) ==> listener(ss, lsof, port)
            == Some(pid),
        (ss is None || first_pid(lines_of(ss->0), port) is None) && (lsof is None || lines_of(
            lsof->0,
        ).len() == 0) ==> listener(ss, lsof, port) is None,
{
    crate::text::law_decimal_reads_back(pid as nat);
    let d = dec(pid as nat);
    assert(trimmed(d) == d) by {
        crate::text::law_trimming_takes_only_the_ends(d);
        let (a, b) = crate::text::trimmed_ends(d);
        assert(crate::text::is_digit(d[0]));
        assert(crate::text::is_digit(d[d.len() - 1]));
        if a.len() > 0 {
            assert(crate::text::white_space(a[0]));
            assert(a[0] == d[0]);
        }
        if b.len() > 0 {
            assert(crate::text::white_space(b[b.len() - 1]));
            assert(b[b.len() - 1] == d[d.len() - 1]);
        }
        assert(trimmed(d) =~= d);
    }
}

/// A launch line is the process's arguments with a space between them: an argument stands in front of
/// what the ones behind it give, and an empty one leaves no trace. Without a port, a process or its
/// arguments there is no line.
pub proof fn law_a_launch_line_joins_the_arguments(
    port: nat,
    pid: u32,
    arg: Seq<char>,
    rest: Seq<char>,
)
    requires
        port != 0,
        !arg.contains('\0'),
    ensures
        ({
            let behind = launch_line(port, Some(pid), Some(rest));
            let whole = launch_line(port, Some(pid), Some(arg + seq!['\0'] + rest));
            &&& arg.len() == 0 ==> whole == behind
            &&& arg.len() > 0 && non_empty(split_on(rest, '\0')).len() > 0 ==> whole == arg + " "@
                + behind
            &&& arg.len() > 0 && non_empty(split_on(rest, '\0')).len() == 0 ==> whole == arg
            &&& launch_line(port, Some(pid), Some(Seq::empty())).len() == 0
        }),
        launch_line(0, Some(pid), Some(rest)).len() == 0,
        launch_line(port, None, Some(rest)).len() == 0,
        launch_line(port, Some(pid), None).len() == 0,
{
    let n = arg.len() as int;
    let s = arg + seq!['\0'] + rest;
    assert forall|j: int| 0 <= j < n implies s[j] != '\0' by {
        assert(arg.contains(arg[j]));
    }
    crate::text::lemma_first_index_is(s, '\0', n);
    assert(s.take(n) =~= arg);
    assert(s.skip(n + 1) =~= rest);
    let parts = split_on(rest, '\0');
    assert(split_on(s, '\0') =~= seq![arg] + parts);
    lemma_filter_front(arg, parts);
    let kept = non_empty(parts);
    if arg.len() > 0 && kept.len() > 0 {
        crate::text::lemma_joined_front(arg, kept, " "@);
    } else if arg.len() > 0 {
        assert(seq![arg] + kept =~= seq![arg]);
    }
    assert(split_on(Seq::<char>::empty(), '\0') =~= seq![Seq::<char>::empty()]);
    reveal(Seq::filter);
    assert(seq![Seq::<char>::empty()].drop_last() =~= Seq::<Seq<char>>::empty());
    assert(non_empty(Seq::<Seq<char>>::empty()) =~= Seq::<Seq<char>>::empty());
    assert(non_empty(seq![Seq::<char>::empty()]) =~= Seq::<Seq<char>>::empty());
}

proof fn lemma_filter_front(a: Seq<char>, parts: Seq<Seq<char>>)
    ensures
        non_empty(seq![a] + parts) == (if a.len() > 0 {
            seq![a] + non_empty(parts)
        } else {
            non_empty(parts)
        }),
    decreases parts.len(),
{
    reveal(Seq::filter);
    let all = seq![a] + parts;
    if parts.len() == 0 {
        assert(all.drop_last() =~= Seq::<Seq<char>>::empty());
        assert(non_empty(all.drop_last()) =~= Seq::<Seq<char>>::empty());
        assert(non_empty(parts) =~= Seq::<Seq<char>>::empty());
        assert(all.last() == a);
        assert(non_empty(all) =~= (if a.len() > 0 {
            seq![a]
        } else {
            Seq::<Seq<char>>::empty()
        }));
        assert(seq![a] + non_empty(parts) =~= seq![a]);
    } else {
        assert(all.last() == parts.last());
        assert(all.drop_last() =~= seq![a] + parts.drop_last());
        lemma_filter_front(a, parts.drop_last());
        assert(non_empty(all) =~= (if a.len() > 0 {
            seq![a] + non_empty(parts)
        } else {
            non_empty(parts)
        }));
    }
}

/// What was found first is kept: a later poll that finds another source, or none, changes neither the
/// source nor what the scan goes by. Until something was found, what is found now counts, and the scan
/// is made only for boards whose driver writes such lines.
pub proof fn law_what_was_found_first_is_kept(p: Poller, found: GpuSource, journalctl: bool)
    ensures
        p.gpu_source is Some ==> source_of(p, found) == p.gpu_source->0,
        p.gpu_source is None ==> source_of(p, found) == found,
        p.xid_gate is Some ==> gate_of(p, found, journalctl) == p.xid_gate->0,
        p.xid_gate is None ==> gate_of(p, found, journalctl).journalctl == journalctl && (gate_of(
            p,
            found,
            journalctl,
        ).nvidia <==> source_of(p, found) == GpuSource::Nvidia),
        p.xid_gate is None && p.gpu_source is None ==> (gate_of(p, found, journalctl).nvidia <==> found
            == GpuSource::Nvidia),
{
}

/// The key goes with a request to the engine and with no other, whole and behind its scheme; without a
/// key nothing goes.
pub proof fn law_a_key_goes_only_to_its_engine(auth: EngineAuth, url: &str, r: Option<String>)
    requires
        call_ensures(authed, (&auth, url), r),
    ensures
        auth_view(auth) is None ==> r is None,
        auth_view(auth) is Some ==> (r is Some <==> under(url@, (auth_view(auth)->0).0)),
        r is Some ==> r->0@ == "Bearer "@ + (auth_view(auth)->0).1,
{
}

/// The GPUs are read by NVIDIA's program where it is there, else by AMD's, else on macOS by the
/// system's own; without any of them there is no source. The journal is scanned only for NVIDIA's
/// boards and where it can be read.
pub proof fn law_a_source_is_a_program_that_is_there(
    p: Programs,
    r: GpuSource,
    g: XidScanGate,
    scans: bool,
)
    requires
        call_ensures(find_gpu_source, (p,), r),
        call_ensures(XidScanGate::should_scan, (&g,), scans),
    ensures
        r == GpuSource::Nvidia <==> p.nvidia_smi,
        r == GpuSource::Amd <==> !p.nvidia_smi && (p.amd_smi || p.rocm_smi),
        r == GpuSource::Apple ==> p.macos && p.ioreg,
        r == GpuSource::Absent <==> !p.nvidia_smi && !p.amd_smi && !p.rocm_smi && !(p.macos && p.ioreg),
        scans <==> g.nvidia && g.journalctl,
{
}

/// A program that names no GPU gives no reading, and one that names some gives all of them. AMD's older
/// program is asked where the newer one names none.
pub proof fn law_no_gpu_is_no_reading<G>(
    apple: Result<Vec<G>, String>,
    a: Result<Vec<G>, String>,
    amd: Option<Vec<G>>,
    rocm: Result<Vec<G>, String>,
    b: Result<Vec<G>, String>,
)
    requires
        call_ensures(apple_reading::<G>, (apple,), a),
        call_ensures(amd_reading::<G>, (amd, rocm), b),
    ensures
        a is Ok <==> apple is Ok && apple->Ok_0@.len() > 0,
        a is Ok ==> a->Ok_0 == apple->Ok_0,
        amd is Some && amd->0@.len() > 0 ==> b == Ok::<Vec<G>, String>(amd->0),
        (amd is None || amd->0@.len() == 0) ==> (b is Ok <==> rocm is Ok && rocm->Ok_0@.len() > 0),
        (amd is None || amd->0@.len() == 0) && b is Ok ==> b->Ok_0 == rocm->Ok_0,
{
}

/// The gateway is heard only where there is one, and in its own words where it answers them; a page is
/// read where its body came.
pub proof fn law_a_gateway_is_heard_where_there_is_one<H>(
    has_gate: bool,
    read: Result<Option<H>, String>,
    r: Result<H, String>,
    f: Fetched,
    cert: Option<String>,
    page: Result<String, String>,
)
    requires
        call_ensures(gate_reply::<H>, (has_gate, read), r),
        call_ensures(http_get, (f, cert), page),
    ensures
        r is Ok <==> has_gate && read is Ok && read->Ok_0 is Some,
        r is Ok ==> r->Ok_0 == read->Ok_0->0,
        has_gate && read is Err ==> r->Err_0 == read->Err_0,
        page is Ok <==> f is Body,
        page is Ok ==> f == Fetched::Body(page->Ok_0),
{
}

} // verus!
