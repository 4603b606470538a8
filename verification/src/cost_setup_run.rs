//! The cost wizard: it asks how to price electricity and writes the answer.
//!
//! Everything outside the wizard (the person, the rate tables, the network, the file system) answers
//! requests. The wizard is run again from the start on the answers given so far, until it needs none
//! that is not there; so it is a function of those answers alone.

use crate::text::{
    chars_of, dec, dec_u64, lower, lowered, opt_view, parse_int, parse_u64, same, string_of, trim,
    trimmed, views,
};
use vstd::prelude::*;
use vstd::string::*;

verus! {

// -------------------------------------------------------------------- arguments

/// Where the rate comes from.
#[derive(Clone, PartialEq, Eq, Debug)]
pub enum Mode {
    Ask,
    Zip(String),
    FromIp,
    Rate(String),
    Skip,
}

/// What the command line asks for.
#[derive(Clone, PartialEq, Eq, Debug)]
pub struct Opts {
    pub mode: Mode,
    pub out: String,
    pub force: bool,
    pub dry_run: bool,
}

/// Where the rate comes from, as values.
pub enum ModeView {
    Ask,
    Zip(Seq<char>),
    FromIp,
    Rate(Seq<char>),
    Skip,
}

/// What the command line asks for, as values.
pub struct OptsView {
    pub mode: ModeView,
    pub out: Seq<char>,
    pub force: bool,
    pub dry_run: bool,
}

/// A mode as values.
pub open spec fn mode_view(m: Mode) -> ModeView {
    match m {
        Mode::Ask => ModeView::Ask,
        Mode::Zip(z) => ModeView::Zip(z@),
        Mode::FromIp => ModeView::FromIp,
        Mode::Rate(r) => ModeView::Rate(r@),
        Mode::Skip => ModeView::Skip,
    }
}

/// Options as values.
pub open spec fn opts_view(o: Opts) -> OptsView {
    OptsView { mode: mode_view(o.mode), out: o.out@, force: o.force, dry_run: o.dry_run }
}

/// The result of reading the command line, as values.
pub open spec fn opts_result(r: Result<Opts, String>) -> Result<OptsView, Seq<char>> {
    match r {
        Ok(o) => Ok(opts_view(o)),
        Err(e) => Err(e@),
    }
}

/// The arguments from `i` on, read onto `o` with `chosen` ways chosen so far: each flag sets its
/// part, the later of two wins, and more than one way to price is refused in the end.
pub open spec fn read_args(args: Seq<Seq<char>>, i: int, o: OptsView, chosen: int) -> Result<
    OptsView,
    Seq<char>,
>
    decreases args.len() - i,
{
    if i >= args.len() {
        if chosen > 1 {
            Err("choose ONE of --zip, --from-ip, --rate, --skip"@)
        } else {
            Ok(o)
        }
    } else {
        let a = args[i];
        let more = i + 1 < args.len();
        if a == "--zip"@ {
            if more {
                read_args(args, i + 2, OptsView { mode: ModeView::Zip(args[i + 1]), ..o }, chosen + 1)
            } else {
                Err("--zip needs a value"@)
            }
        } else if a == "--from-ip"@ {
            read_args(args, i + 1, OptsView { mode: ModeView::FromIp, ..o }, chosen + 1)
        } else if a == "--rate"@ {
            if more {
                read_args(args, i + 2, OptsView { mode: ModeView::Rate(args[i + 1]), ..o }, chosen + 1)
            } else {
                Err("--rate needs a value"@)
            }
        } else if a == "--skip"@ {
            read_args(args, i + 1, OptsView { mode: ModeView::Skip, ..o }, chosen + 1)
        } else if a == "--out"@ {
            if more {
                read_args(args, i + 2, OptsView { out: args[i + 1], ..o }, chosen)
            } else {
                Err("--out needs a value"@)
            }
        } else if a == "--force"@ {
            read_args(args, i + 1, OptsView { force: true, ..o }, chosen)
        } else if a == "--dry-run"@ {
            read_args(args, i + 1, OptsView { dry_run: true, ..o }, chosen)
        } else {
            Err("unknown argument "@ + a)
        }
    }
}

/// What the command line asks for where it says nothing.
pub open spec fn default_opts() -> OptsView {
    OptsView {
        mode: ModeView::Ask,
        out: "~/.config/lss/rates.toml"@,
        force: false,
        dry_run: false,
    }
}

/// Reads the command line.
pub fn parse_args(args: &[String]) -> (r: Result<Opts, String>)
    ensures
        opts_result(r) == read_args(views(args@), 0, default_opts(), 0),
{
    let ghost all = views(args@);
    let mut o = Opts {
        mode: Mode::Ask,
        out: "~/.config/lss/rates.toml".to_owned(),
        force: false,
        dry_run: false,
    };
    let mut chosen: u64 = 0;
    let mut i: usize = 0;
    let n: usize = args.len();
    while i < n
        invariant
            i <= n,
            n == args@.len(),
            chosen <= i,
            all == views(args@),
            read_args(all, 0, default_opts(), 0) == read_args(all, i as int, opts_view(o), chosen as int),
        decreases n - i,
    {
        let a = args[i].as_str();
        assert(all[i as int] == a@);
        let more = n - i > 1;
        if more {
            assert(all[i + 1] == args@[i + 1]@);
        }
        if same(a, "--zip") {
            if !more {
                return Err("--zip needs a value".to_owned());
            }
            o.mode = Mode::Zip(args[i + 1].clone());
            chosen += 1;
            i += 2;
        } else if same(a, "--from-ip") {
            o.mode = Mode::FromIp;
            chosen += 1;
            i += 1;
        } else if same(a, "--rate") {
            if !more {
                return Err("--rate needs a value".to_owned());
            }
            o.mode = Mode::Rate(args[i + 1].clone());
            chosen += 1;
            i += 2;
        } else if same(a, "--skip") {
            o.mode = Mode::Skip;
            chosen += 1;
            i += 1;
        } else if same(a, "--out") {
            if !more {
                return Err("--out needs a value".to_owned());
            }
            o.out = args[i + 1].clone();
            i += 2;
        } else if same(a, "--force") {
            o.force = true;
            i += 1;
        } else if same(a, "--dry-run") {
            o.dry_run = true;
            i += 1;
        } else {
            let mut e = "unknown argument ".to_owned();
            e.append(a);
            return Err(e);
        }
    }
    if chosen > 1 {
        return Err("choose ONE of --zip, --from-ip, --rate, --skip".to_owned());
    }
    Ok(o)
}

// ------------------------------------------------------- what is said and asked

/// A price: its value, and how it is shown.
pub struct Price<R> {
    pub value: R,
    pub shown: String,
}

/// A price as values.
pub open spec fn price_view<R>(p: Price<R>) -> (R, Seq<char>) {
    (p.value, p.shown@)
}

impl<R: Copy> Price<R> {
    fn copy(&self) -> (r: Price<R>)
        ensures
            price_view(r) == price_view(*self),
    {
        Price { value: self.value, shown: self.shown.clone() }
    }
}

/// What the tables say of a ZIP code. A place is given by its code and its name, a rate also by its
/// cents as they are shown.
pub enum ZipLookup<R> {
    State { code: String, place: String, cents: String, price: Price<R> },
    NotCovered { place: String },
    UnknownPrefix { prefix: String },
    Invalid { reason: String },
}

/// What the location service says.
pub enum IpLocation<R> {
    UsState { code: String, place: String, cents: String, price: Price<R>, city: String },
    NotUs { country: String },
    UsNotCovered { region: String },
}

/// Where a flat rate comes from.
pub enum RateOrigin {
    Manual,
    StateAverage { code: String, how: String },
}

/// Where a flat rate comes from, as values.
pub enum OriginView {
    Manual,
    StateAverage(Seq<char>, Seq<char>),
}

/// An origin as values.
pub open spec fn origin_view(o: RateOrigin) -> OriginView {
    match o {
        RateOrigin::Manual => OriginView::Manual,
        RateOrigin::StateAverage { code, how } => OriginView::StateAverage(code@, how@),
    }
}

/// A plan's winter.
pub struct Seasons<R> {
    pub summer_start: u32,
    pub summer_end: u32,
    pub winter_peak: Price<R>,
}

/// A plan with a peak window.
pub struct TouPlan<R> {
    pub on_peak: Price<R>,
    pub peak_start: u32,
    pub peak_end: u32,
    pub off_peak: Price<R>,
    pub weekend_peak: Price<R>,
    pub seasons: Option<Seasons<R>>,
    pub fixed_usd_per_day: R,
}

/// A plan's winter, as values.
pub struct SeasonsView<R> {
    pub summer_start: u32,
    pub summer_end: u32,
    pub winter_peak: (R, Seq<char>),
}

/// A plan with a peak window, as values.
pub struct PlanView<R> {
    pub on_peak: (R, Seq<char>),
    pub peak_start: u32,
    pub peak_end: u32,
    pub off_peak: (R, Seq<char>),
    pub weekend_peak: (R, Seq<char>),
    pub seasons: Option<SeasonsView<R>>,
    pub fixed_usd_per_day: R,
}

/// A winter as values.
pub open spec fn seasons_view<R>(s: Option<Seasons<R>>) -> Option<SeasonsView<R>> {
    match s {
        Some(s) => Some(
            SeasonsView {
                summer_start: s.summer_start,
                summer_end: s.summer_end,
                winter_peak: price_view(s.winter_peak),
            },
        ),
        None => None,
    }
}

/// A plan as values.
pub open spec fn plan_view<R>(p: TouPlan<R>) -> PlanView<R> {
    PlanView {
        on_peak: price_view(p.on_peak),
        peak_start: p.peak_start,
        peak_end: p.peak_end,
        off_peak: price_view(p.off_peak),
        weekend_peak: price_view(p.weekend_peak),
        seasons: seasons_view(p.seasons),
        fixed_usd_per_day: p.fixed_usd_per_day,
    }
}

impl<R: Copy> TouPlan<R> {
    fn copy(&self) -> (r: TouPlan<R>)
        ensures
            plan_view(r) == plan_view(*self),
    {
        let seasons = match &self.seasons {
            Some(s) => Some(
                Seasons {
                    summer_start: s.summer_start,
                    summer_end: s.summer_end,
                    winter_peak: s.winter_peak.copy(),
                },
            ),
            None => None,
        };
        TouPlan {
            on_peak: self.on_peak.copy(),
            peak_start: self.peak_start,
            peak_end: self.peak_end,
            off_peak: self.off_peak.copy(),
            weekend_peak: self.weekend_peak.copy(),
            seasons,
            fixed_usd_per_day: self.fixed_usd_per_day,
        }
    }
}

/// What the wizard needs from outside.
pub enum Request<R> {
    /// one answer of the person to this prompt
    Ask(String),
    LookupZip(String),
    /// what this text is as a rate, and a doubt about it
    ParseRate(String),
    /// what this text is as a daily charge
    ParseCharge(String),
    /// one request to the location service
    Locate,
    /// whether this plan can be used, and doubts about it
    CheckTou(TouPlan<R>),
    /// the file for this flat rate, and its label
    Render(Price<R>, RateOrigin),
    /// the file for this plan, and its label
    RenderTou(TouPlan<R>),
    /// what is at the path already
    Existing,
    /// this text as the file
    Write(String),
}

/// What the wizard needs from outside, as values.
pub enum RequestView<R> {
    Ask(Seq<char>),
    LookupZip(Seq<char>),
    ParseRate(Seq<char>),
    ParseCharge(Seq<char>),
    Locate,
    CheckTou(PlanView<R>),
    Render((R, Seq<char>), OriginView),
    RenderTou(PlanView<R>),
    Existing,
    Write(Seq<char>),
}

/// A request as values.
pub open spec fn request_view<R>(q: Request<R>) -> RequestView<R> {
    match q {
        Request::Ask(s) => RequestView::Ask(s@),
        Request::LookupZip(s) => RequestView::LookupZip(s@),
        Request::ParseRate(s) => RequestView::ParseRate(s@),
        Request::ParseCharge(s) => RequestView::ParseCharge(s@),
        Request::Locate => RequestView::Locate,
        Request::CheckTou(p) => RequestView::CheckTou(plan_view(p)),
        Request::Render(p, o) => RequestView::Render(price_view(p), origin_view(o)),
        Request::RenderTou(p) => RequestView::RenderTou(plan_view(p)),
        Request::Existing => RequestView::Existing,
        Request::Write(s) => RequestView::Write(s@),
    }
}

/// What outside answered.
pub enum Event<R> {
    /// an answer of the person, or the end of their input
    Answer(Option<String>),
    Zip(ZipLookup<R>),
    Rate(Result<Price<R>, String>, Option<String>),
    Charge(Option<R>),
    Location(Result<IpLocation<R>, String>),
    Checked(Result<Vec<String>, String>),
    Rendered { text: String, label: String },
    Existing(Option<String>),
    Written(Result<(), String>),
}

/// A conversation: the answers, how many of them have been used, and what was said.
pub struct Tape<R> {
    pub events: Vec<Event<R>>,
    pub at: usize,
    pub said: Vec<String>,
}

/// A conversation as values.
pub struct Talk<R> {
    pub events: Seq<Event<R>>,
    pub at: int,
    pub said: Seq<Seq<char>>,
}

impl<R> View for Tape<R> {
    type V = Talk<R>;

    open spec fn view(&self) -> Talk<R> {
        Talk { events: self.events@, at: self.at as int, said: views(self.said@) }
    }
}

/// What a part of the conversation comes to: a result, or a request that is not answered yet.
pub enum Out<R, A> {
    Got(Talk<R>, A),
    Need(Talk<R>, RequestView<R>),
}

/// The conversation after something was said.
pub open spec fn say<R>(t: Talk<R>, s: Seq<char>) -> Talk<R> {
    Talk { said: t.said.push(s), ..t }
}

/// The conversation after one answer was used.
pub open spec fn used<R>(t: Talk<R>) -> Talk<R> {
    Talk { at: t.at + 1, ..t }
}

/// The next answer, where there is one.
pub open spec fn next<R>(t: Talk<R>) -> Option<Event<R>> {
    if 0 <= t.at < t.events.len() {
        Some(t.events[t.at])
    } else {
        None
    }
}

/// A question to the person.
pub open spec fn ask<R>(t: Talk<R>, q: Seq<char>) -> Out<R, Option<Seq<char>>> {
    match next(t) {
        Some(Event::Answer(a)) => Out::Got(used(t), opt_view(a)),
        _ => Out::Need(t, RequestView::Ask(q)),
    }
}

/// What an answer to a yes-or-no question means: nothing is the default, `y...` is yes, the end of
/// the input is no.
pub open spec fn means_yes(a: Option<Seq<char>>, default: bool) -> bool {
    match a {
        Some(s) => {
            let l = lowered(trimmed(s));
            if l.len() == 0 {
                default
            } else {
                l[0] == 'y'
            }
        },
        None => false,
    }
}

/// A yes-or-no question to the person.
pub open spec fn yes_or_no<R>(t: Talk<R>, q: Seq<char>, default: bool) -> Out<R, bool> {
    match ask(t, q) {
        Out::Got(t, a) => Out::Got(t, means_yes(a, default)),
        Out::Need(t, n) => Out::Need(t, n),
    }
}

/// A result and the conversation behind it, against what they are meant to be.
pub open spec fn is_out<R, A, B>(
    t: Talk<R>,
    r: Result<A, Request<R>>,
    o: Out<R, B>,
    f: spec_fn(A) -> B,
) -> bool {
    match r {
        Ok(a) => o == Out::<R, B>::Got(t, f(a)),
        Err(q) => o == Out::<R, B>::Need(t, request_view(q)),
    }
}

impl<R: Copy> Tape<R> {
    /// The conversation before its first answer is used.
    pub fn new(events: Vec<Event<R>>) -> (r: Tape<R>)
        ensures
            r@ == (Talk { events: events@, at: 0, said: Seq::empty() }),
    {
        let r = Tape { events, at: 0, said: Vec::new() };
        assert(views(r.said@) =~= Seq::<Seq<char>>::empty());
        r
    }

    fn say(&mut self, s: &str)
        ensures
            final(self)@ == say(old(self)@, s@),
    {
        let ghost before = self.said@;
        self.said.push(s.to_owned());
        assert(views(self.said@) =~= views(before).push(s@));
    }

    fn ask(&mut self, q: &str) -> (r: Result<Option<String>, Request<R>>)
        ensures
            is_out(final(self)@, r, ask(old(self)@, q@), |a: Option<String>| opt_view(a)),
    {
        if self.at < self.events.len() {
            let mut got: Option<Option<String>> = None;
            if let Event::Answer(a) = &self.events[self.at] {
                got = Some(
                    match a {
                        Some(s) => Some(s.clone()),
                        None => None,
                    },
                );
            }
            if let Some(a) = got {
                self.at = self.at + 1;
                return Ok(a);
            }
        }
        Err(Request::Ask(q.to_owned()))
    }

    fn yes_no(&mut self, q: &str, default: bool) -> (r: Result<bool, Request<R>>)
        ensures
            is_out(final(self)@, r, yes_or_no(old(self)@, q@, default), |b: bool| b),
    {
        match self.ask(q) {
            Ok(Some(a)) => {
                let l = chars_of(lower(trim(a.as_str()).as_str()).as_str());
                if l.len() == 0 {
                    Ok(default)
                } else {
                    Ok(l[0] == 'y')
                }
            },
            Ok(None) => Ok(false),
            Err(n) => Err(n),
        }
    }
}

// ------------------------------------------------------------------ a flat rate

/// What a sub-dialog gives: a value, nothing (the input ended), or an exit code and why.
pub open spec fn answer_view<A, B>(r: Result<Option<A>, (i32, String)>, f: spec_fn(A) -> B) -> Result<
    Option<B>,
    (int, Seq<char>),
> {
    match r {
        Ok(Some(a)) => Ok(Some(f(a))),
        Ok(None) => Ok(None),
        Err(e) => Err((e.0 as int, e.1@)),
    }
}

/// How a text reads as a rate.
pub open spec fn read_rate<R>(t: Talk<R>, text: Seq<char>) -> Out<
    R,
    (Result<(R, Seq<char>), Seq<char>>, Option<Seq<char>>),
> {
    match next(t) {
        Some(Event::Rate(r, d)) => Out::Got(
            used(t),
            (
                match r {
                    Ok(p) => Ok(price_view(p)),
                    Err(e) => Err(e@),
                },
                opt_view(d),
            ),
        ),
        _ => Out::Need(t, RequestView::ParseRate(text)),
    }
}

/// Whether what was typed is used: a doubt is said, and asked about.
pub open spec fn confirmed<R>(t: Talk<R>, doubt: Option<Seq<char>>) -> Out<R, bool> {
    match doubt {
        None => Out::Got(t, true),
        Some(d) => yes_or_no(say(t, "Are you sure? "@ + d + ".\n"@), "Use it anyway? [y/N] "@, false),
    }
}

/// Asks for a rate, `n` times at most.
pub open spec fn rate_dialog<R>(t: Talk<R>, n: nat) -> Out<
    R,
    Result<Option<(R, Seq<char>)>, (int, Seq<char>)>,
>
    decreases n,
{
    if n == 0 {
        Out::Got(t, Err((1, "no usable rate after 3 tries - cost tracking stays off"@)))
    } else {
        match ask(t, "Your rate in $ per kWh (e.g. 0.31; 31c also works): "@) {
            Out::Need(t, q) => Out::Need(t, q),
            Out::Got(t, None) => Out::Got(t, Ok(None)),
            Out::Got(t, Some(a)) => match read_rate(t, a) {
                Out::Need(t, q) => Out::Need(t, q),
                Out::Got(t, (Err(e), _)) => rate_dialog(say(t, e + ".\n"@), (n - 1) as nat),
                Out::Got(t, (Ok(p), doubt)) => match confirmed(t, doubt) {
                    Out::Need(t, q) => Out::Need(t, q),
                    Out::Got(t, true) => Out::Got(t, Ok(Some(p))),
                    Out::Got(t, false) => rate_dialog(t, (n - 1) as nat),
                },
            },
        }
    }
}

impl<R: Copy> Tape<R> {
    fn parse_rate(&mut self, text: &str) -> (r: Result<
        (Result<Price<R>, String>, Option<String>),
        Request<R>,
    >)
        ensures
            is_out(
                final(self)@,
                r,
                read_rate(old(self)@, text@),
                |a: (Result<Price<R>, String>, Option<String>)|
                    (
                        match a.0 {
                            Ok(p) => Ok::<(R, Seq<char>), Seq<char>>(price_view(p)),
                            Err(e) => Err(e@),
                        },
                        opt_view(a.1),
                    ),
            ),
    {
        if self.at < self.events.len() {
            let mut got: Option<(Result<Price<R>, String>, Option<String>)> = None;
            if let Event::Rate(r, d) = &self.events[self.at] {
                let rate = match r {
                    Ok(p) => Ok(p.copy()),
                    Err(e) => Err(e.clone()),
                };
                let doubt = match d {
                    Some(d) => Some(d.clone()),
                    None => None,
                };
                got = Some((rate, doubt));
            }
            if let Some(a) = got {
                self.at = self.at + 1;
                return Ok(a);
            }
        }
        Err(Request::ParseRate(text.to_owned()))
    }

    fn cents_confirmed(&mut self, doubt: &Option<String>) -> (r: Result<bool, Request<R>>)
        ensures
            is_out(final(self)@, r, confirmed(old(self)@, opt_view(*doubt)), |b: bool| b),
    {
        match doubt {
            None => Ok(true),
            Some(d) => {
                let mut s = "Are you sure? ".to_owned();
                s.append(d.as_str());
                s.append(".\n");
                self.say(s.as_str());
                self.yes_no("Use it anyway? [y/N] ", false)
            },
        }
    }

    fn ask_rate(&mut self, n: u32) -> (r: Result<
        Result<Option<Price<R>>, (i32, String)>,
        Request<R>,
    >)
        ensures
            is_out(
                final(self)@,
                r,
                rate_dialog(old(self)@, n as nat),
                |a: Result<Option<Price<R>>, (i32, String)>|
                    answer_view(a, |p: Price<R>| price_view(p)),
            ),
        decreases n,
    {
        if n == 0 {
            return Ok(
                Err((1, "no usable rate after 3 tries - cost tracking stays off".to_owned())),
            );
        }
        let a = match self.ask("Your rate in $ per kWh (e.g. 0.31; 31c also works): ") {
            Err(q) => {
                return Err(q);
            },
            Ok(None) => {
                return Ok(Ok(None));
            },
            Ok(Some(a)) => a,
        };
        match self.parse_rate(a.as_str()) {
            Err(q) => Err(q),
            Ok((Err(e), _)) => {
                let mut s = e;
                s.append(".\n");
                self.say(s.as_str());
                self.ask_rate(n - 1)
            },
            Ok((Ok(p), doubt)) => match self.cents_confirmed(&doubt) {
                Err(q) => Err(q),
                Ok(true) => Ok(Ok(Some(p))),
                Ok(false) => self.ask_rate(n - 1),
            },
        }
    }
}

/// A flat rate and where it comes from.
pub struct Pick<R> {
    pub price: Price<R>,
    pub origin: RateOrigin,
}

/// A flat rate and where it comes from, as values.
pub open spec fn pick_view<R>(p: Pick<R>) -> ((R, Seq<char>), OriginView) {
    (price_view(p.price), origin_view(p.origin))
}

/// A typed rate as a flat rate.
pub open spec fn typed_pick<R>(a: Result<Option<(R, Seq<char>)>, (int, Seq<char>)>) -> Result<
    Option<((R, Seq<char>), OriginView)>,
    (int, Seq<char>),
> {
    match a {
        Ok(Some(p)) => Ok(Some((p, OriginView::Manual))),
        Ok(None) => Ok(None),
        Err(e) => Err(e),
    }
}

/// Asks for a rate, as a flat rate.
pub open spec fn typed_dialog<R>(t: Talk<R>) -> Out<
    R,
    Result<Option<((R, Seq<char>), OriginView)>, (int, Seq<char>)>,
> {
    match rate_dialog(t, 3) {
        Out::Got(t, a) => Out::Got(t, typed_pick(a)),
        Out::Need(t, q) => Out::Need(t, q),
    }
}

impl<R: Copy> Tape<R> {
    fn ask_typed(&mut self) -> (r: Result<Result<Option<Pick<R>>, (i32, String)>, Request<R>>)
        ensures
            is_out(
                final(self)@,
                r,
                typed_dialog(old(self)@),
                |a: Result<Option<Pick<R>>, (i32, String)>| answer_view(a, |p: Pick<R>| pick_view(p)),
            ),
    {
        match self.ask_rate(3) {
            Err(q) => Err(q),
            Ok(Ok(Some(p))) => Ok(Ok(Some(Pick { price: p, origin: RateOrigin::Manual }))),
            Ok(Ok(None)) => Ok(Ok(None)),
            Ok(Err(e)) => Ok(Err(e)),
        }
    }
}

// ------------------------------------------------------------------- a ZIP code

/// The names that the sentences use.
pub struct Texts {
    pub eia_month: String,
    pub eia_released: String,
    pub ip_name: String,
    pub ip_url: String,
}

/// What is wrong with a ZIP code.
pub open spec fn zip_trouble<R>(z: ZipLookup<R>) -> Seq<char> {
    match z {
        ZipLookup::NotCovered { place } => place@
            + " is not in EIA's state table, so there is no average to use"@,
        ZipLookup::UnknownPrefix { prefix } => "no US ZIP code starts with "@ + prefix@,
        ZipLookup::Invalid { reason } => reason@,
        ZipLookup::State { .. } => Seq::empty(),
    }
}

/// What is wrong with a ZIP code.
pub fn zip_problem<R>(z: &ZipLookup<R>) -> (r: String)
    ensures
        r@ == zip_trouble(*z),
{
    match z {
        ZipLookup::NotCovered { place } => {
            let mut s = place.clone();
            s.append(" is not in EIA's state table, so there is no average to use");
            s
        },
        ZipLookup::UnknownPrefix { prefix } => {
            let mut s = "no US ZIP code starts with ".to_owned();
            s.append(prefix.as_str());
            s
        },
        ZipLookup::Invalid { reason } => reason.clone(),
        ZipLookup::State { .. } => String::new(),
    }
}

/// The origin of a ZIP code's rate.
pub open spec fn zip_origin(code: Seq<char>, zip: Seq<char>) -> OriginView {
    OriginView::StateAverage(code, "ZIP "@ + trimmed(zip))
}

/// A ZIP code from the command line: one lookup, no retries.
pub open spec fn zip_flag<R>(t: Talk<R>, zip: Seq<char>, month: Seq<char>) -> Out<
    R,
    Result<Option<((R, Seq<char>), OriginView)>, (int, Seq<char>)>,
> {
    match next(t) {
        Some(Event::Zip(z)) => match z {
            ZipLookup::State { code, place, cents, price } => Out::Got(
                say(
                    used(t),
                    "ZIP "@ + trimmed(zip) + " -> "@ + place@ + ": "@ + cents@
                        + "c/kWh average residential (EIA, "@ + month + ")\n"@,
                ),
                Ok(Some((price_view(price), zip_origin(code@, zip)))),
            ),
            other => Out::Got(
                used(t),
                Err(
                    (
                        1,
                        zip_trouble(other) + " - pass --rate with the $/kWh from your bill instead"@,
                    ),
                ),
            ),
        },
        _ => Out::Need(t, RequestView::LookupZip(zip)),
    }
}

/// Asks for a ZIP code, `n` times at most, and for the rate itself where none helps.
pub open spec fn zip_dialog<R>(t: Talk<R>, x: Texts, n: nat) -> Out<
    R,
    Result<Option<((R, Seq<char>), OriginView)>, (int, Seq<char>)>,
>
    decreases n,
{
    if n == 0 {
        typed_dialog(
            say(
                t,
                "No ZIP code matched after 3 tries - type the rate from your bill instead.\n"@,
            ),
        )
    } else {
        match ask(t, "Your 5-digit ZIP code: "@) {
            Out::Need(t, q) => Out::Need(t, q),
            Out::Got(t, None) => Out::Got(t, Ok(None)),
            Out::Got(t, Some(a)) => match next(t) {
                Some(Event::Zip(z)) => match z {
                    ZipLookup::State { code, place, cents, price } => match yes_or_no(
                        used(t),
                        "ZIP "@ + trimmed(a) + " is in "@ + place@ + ": average home rate "@
                            + cents@ + "c/kWh (U.S. EIA, "@ + x.eia_month@ + ", published "@
                            + x.eia_released@ + ").\nUse it? [Y/n] "@,
                        true,
                    ) {
                        Out::Need(t, q) => Out::Need(t, q),
                        Out::Got(t, true) => Out::Got(
                            t,
                            Ok(Some((price_view(price), zip_origin(code@, a)))),
                        ),
                        Out::Got(t, false) => typed_dialog(t),
                    },
                    ZipLookup::NotCovered { place } => typed_dialog(
                        say(
                            used(t),
                            zip_trouble(z) + ". Type the rate from your bill instead.\n"@,
                        ),
                    ),
                    _ => zip_dialog(
                        say(used(t), zip_trouble(z) + ". Try again.\n"@),
                        x,
                        (n - 1) as nat,
                    ),
                },
                _ => Out::Need(t, RequestView::LookupZip(a)),
            },
        }
    }
}

/// What the tables said of a ZIP code, where they have answered.
pub enum ZipFound<R> {
    State(String, String, String, Price<R>),
    NotCovered(String),
    Other(String),
}

impl<R: Copy> Tape<R> {
    fn zip_event(&mut self) -> (r: Option<ZipFound<R>>)
        ensures
            match next(old(self)@) {
                Some(Event::Zip(z)) => final(self)@ == used(old(self)@) && (match z {
                    ZipLookup::State { code, place, cents, price } => r matches Some(
                        ZipFound::State(c, p, k, v),
                    ) && c@ == code@ && p@ == place@ && k@ == cents@ && price_view(v) == price_view(
                        price,
                    ),
                    ZipLookup::NotCovered { place } => r matches Some(ZipFound::NotCovered(e)) && e@
                        == zip_trouble(z),
                    _ => r matches Some(ZipFound::Other(e)) && e@ == zip_trouble(z),
                }),
                _ => r is None && final(self)@ == old(self)@,
            },
    {
        if self.at >= self.events.len() {
            return None;
        }
        let mut got: Option<ZipFound<R>> = None;
        if let Event::Zip(z) = &self.events[self.at] {
            got = Some(
                match z {
                    ZipLookup::State { code, place, cents, price } => ZipFound::State(
                        code.clone(),
                        place.clone(),
                        cents.clone(),
                        price.copy(),
                    ),
                    ZipLookup::NotCovered { .. } => ZipFound::NotCovered(zip_problem(z)),
                    _ => ZipFound::Other(zip_problem(z)),
                },
            );
        }
        if got.is_some() {
            self.at = self.at + 1;
        }
        got
    }

    fn from_zip(&mut self, zip: &str, month: &str) -> (r: Result<
        Result<Option<Pick<R>>, (i32, String)>,
        Request<R>,
    >)
        ensures
            is_out(
                final(self)@,
                r,
                zip_flag(old(self)@, zip@, month@),
                |a: Result<Option<Pick<R>>, (i32, String)>| answer_view(a, |p: Pick<R>| pick_view(p)),
            ),
    {
        let (code, place, cents, price) = match self.zip_event() {
            None => {
                return Err(Request::LookupZip(zip.to_owned()));
            },
            Some(ZipFound::NotCovered(e)) => {
                let mut s = e;
                s.append(" - pass --rate with the $/kWh from your bill instead");
                return Ok(Err((1, s)));
            },
            Some(ZipFound::Other(e)) => {
                let mut s = e;
                s.append(" - pass --rate with the $/kWh from your bill instead");
                return Ok(Err((1, s)));
            },
            Some(ZipFound::State(code, place, cents, price)) => (code, place, cents, price),
        };
        let z = trim(zip);
        let mut s = "ZIP ".to_owned();
        s.append(z.as_str());
        s.append(" -> ");
        s.append(place.as_str());
        s.append(": ");
        s.append(cents.as_str());
        s.append("c/kWh average residential (EIA, ");
        s.append(month);
        s.append(")\n");
        self.say(s.as_str());
        let mut how = "ZIP ".to_owned();
        how.append(z.as_str());
        Ok(Ok(Some(Pick { price, origin: RateOrigin::StateAverage { code, how } })))
    }

    fn ask_zip(&mut self, x: &Texts, n: u32) -> (r: Result<
        Result<Option<Pick<R>>, (i32, String)>,
        Request<R>,
    >)
        ensures
            is_out(
                final(self)@,
                r,
                zip_dialog(old(self)@, *x, n as nat),
                |a: Result<Option<Pick<R>>, (i32, String)>| answer_view(a, |p: Pick<R>| pick_view(p)),
            ),
        decreases n,
    {
        if n == 0 {
            self.say(
                "No ZIP code matched after 3 tries - type the rate from your bill instead.\n",
            );
            return self.ask_typed();
        }
        let a = match self.ask("Your 5-digit ZIP code: ") {
            Err(q) => {
                return Err(q);
            },
            Ok(None) => {
                return Ok(Ok(None));
            },
            Ok(Some(a)) => a,
        };
        match self.zip_event() {
            None => Err(Request::LookupZip(a)),
            Some(ZipFound::State(code, place, cents, price)) => {
                let z = trim(a.as_str());
                let mut q = "ZIP ".to_owned();
                q.append(z.as_str());
                q.append(" is in ");
                q.append(place.as_str());
                q.append(": average home rate ");
                q.append(cents.as_str());
                q.append("c/kWh (U.S. EIA, ");
                q.append(x.eia_month.as_str());
                q.append(", published ");
                q.append(x.eia_released.as_str());
                q.append(").\nUse it? [Y/n] ");
                match self.yes_no(q.as_str(), true) {
                    Err(q) => Err(q),
                    Ok(true) => {
                        let mut how = "ZIP ".to_owned();
                        how.append(z.as_str());
                        Ok(Ok(Some(Pick { price, origin: RateOrigin::StateAverage { code, how } })))
                    },
                    Ok(false) => self.ask_typed(),
                }
            },
            Some(ZipFound::NotCovered(e)) => {
                let mut s = e;
                s.append(". Type the rate from your bill instead.\n");
                self.say(s.as_str());
                self.ask_typed()
            },
            Some(ZipFound::Other(e)) => {
                let mut s = e;
                s.append(". Try again.\n");
                self.say(s.as_str());
                self.ask_zip(x, n - 1)
            },
        }
    }
}

// ---------------------------------------------------------- the location service

/// What the location service's failure comes to: with a person there the ZIP code is asked for, else
/// it is an error.
pub open spec fn ip_fallback<R>(t: Talk<R>, x: Texts, interactive: bool, why: Seq<char>) -> Out<
    R,
    Result<Option<((R, Seq<char>), OriginView)>, (int, Seq<char>)>,
> {
    if interactive {
        zip_dialog(say(t, why + ". Enter your ZIP code instead:\n"@), x, 3)
    } else {
        Out::Got(t, Err((1, why + " - pass --zip or --rate instead"@)))
    }
}

/// Where the service places somebody.
pub open spec fn place_text(city: Seq<char>, place: Seq<char>) -> Seq<char> {
    if city.len() == 0 {
        place
    } else {
        city + ", "@ + place
    }
}

/// The lookup itself: one request, and what its answer comes to.
pub open spec fn ip_lookup<R>(t: Talk<R>, x: Texts, interactive: bool) -> Out<
    R,
    Result<Option<((R, Seq<char>), OriginView)>, (int, Seq<char>)>,
> {
    match next(t) {
        Some(Event::Location(Err(e))) => ip_fallback(
            used(t),
            x,
            interactive,
            "the location lookup failed ("@ + e@ + ")"@,
        ),
        Some(Event::Location(Ok(l))) => match l {
            IpLocation::UsNotCovered { region } => ip_fallback(
                used(t),
                x,
                interactive,
                x.ip_name@ + " places you in '"@ + region@
                    + "', which EIA's state table does not cover"@,
            ),
            IpLocation::NotUs { country } => {
                let why = x.ip_name@ + " places you outside the US ("@ + country@
                    + "); the built-in table covers US states only"@;
                if interactive {
                    typed_dialog(say(used(t), why + ". Type the rate from your bill:\n"@))
                } else {
                    Out::Got(used(t), Err((1, why + " - pass --rate instead"@)))
                }
            },
            IpLocation::UsState { code, place, cents, price, city } => {
                let at = place_text(city@, place@);
                let pick = (
                    price_view(price),
                    OriginView::StateAverage(code@, "an IP lookup via "@ + x.ip_name@),
                );
                if interactive {
                    match yes_or_no(
                        used(t),
                        x.ip_name@ + " places you in "@ + at + ": average home rate "@ + cents@
                            + "c/kWh (U.S. EIA, "@ + x.eia_month@ + ").\nUse it? [Y/n] "@,
                        true,
                    ) {
                        Out::Need(t, q) => Out::Need(t, q),
                        Out::Got(t, true) => Out::Got(t, Ok(Some(pick))),
                        Out::Got(t, false) => zip_dialog(t, x, 3),
                    }
                } else {
                    Out::Got(
                        say(
                            used(t),
                            x.ip_name@ + ": "@ + at + " -> "@ + cents@
                                + "c/kWh average residential (EIA, "@ + x.eia_month@ + ")\n"@,
                        ),
                        Ok(Some(pick)),
                    )
                }
            },
        },
        _ => Out::Need(t, RequestView::Locate),
    }
}

/// A rate by the location service. With a person there it is asked for first, and its refusal sends
/// nothing; without one the flag was the consent.
pub open spec fn ip_dialog<R>(t: Talk<R>, x: Texts, interactive: bool) -> Out<
    R,
    Result<Option<((R, Seq<char>), OriginView)>, (int, Seq<char>)>,
> {
    if !interactive {
        ip_lookup(t, x, false)
    } else {
        let t = say(
            say(
                t,
                "This sends ONE request to "@ + x.ip_url@ + ". "@ + x.ip_name@
                    + " sees your public IP address and answers with\n"@,
            ),
            "an approximate location (city, state, country). Nothing else is sent, and lss keeps only the state.\n"@,
        );
        match yes_or_no(t, "Contact "@ + x.ip_name@ + " now? [y/N] "@, false) {
            Out::Need(t, q) => Out::Need(t, q),
            Out::Got(t, true) => ip_lookup(t, x, true),
            Out::Got(t, false) => zip_dialog(
                say(t, "Not contacted. Your ZIP code works without the network:\n"@),
                x,
                3,
            ),
        }
    }
}

/// What the location service said, where it has answered.
pub enum Located<R> {
    State(String, String, String, Price<R>, String),
    NotUs(String),
    NotCovered(String),
    Failed(String),
}

impl<R: Copy> Tape<R> {
    fn location_event(&mut self) -> (r: Option<Located<R>>)
        ensures
            match next(old(self)@) {
                Some(Event::Location(l)) => final(self)@ == used(old(self)@) && (match l {
                    Ok(IpLocation::UsState { code, place, cents, price, city }) => r matches Some(
                        Located::State(c, p, k, v, y),
                    ) && c@ == code@ && p@ == place@ && k@ == cents@ && price_view(v) == price_view(
                        price,
                    ) && y@ == city@,
                    Ok(IpLocation::NotUs { country }) => r matches Some(Located::NotUs(c)) && c@
                        == country@,
                    Ok(IpLocation::UsNotCovered { region }) => r matches Some(
                        Located::NotCovered(c),
                    ) && c@ == region@,
                    Err(e) => r matches Some(Located::Failed(c)) && c@ == e@,
                }),
                _ => r is None && final(self)@ == old(self)@,
            },
    {
        if self.at >= self.events.len() {
            return None;
        }
        let mut got: Option<Located<R>> = None;
        if let Event::Location(l) = &self.events[self.at] {
            got = Some(
                match l {
                    Ok(IpLocation::UsState { code, place, cents, price, city }) => Located::State(
                        code.clone(),
                        place.clone(),
                        cents.clone(),
                        price.copy(),
                        city.clone(),
                    ),
                    Ok(IpLocation::NotUs { country }) => Located::NotUs(country.clone()),
                    Ok(IpLocation::UsNotCovered { region }) => Located::NotCovered(region.clone()),
                    Err(e) => Located::Failed(e.clone()),
                },
            );
        }
        if got.is_some() {
            self.at = self.at + 1;
        }
        got
    }

    fn ip_falls_back(&mut self, x: &Texts, interactive: bool, why: String) -> (r: Result<
        Result<Option<Pick<R>>, (i32, String)>,
        Request<R>,
    >)
        ensures
            is_out(
                final(self)@,
                r,
                ip_fallback(old(self)@, *x, interactive, why@),
                |a: Result<Option<Pick<R>>, (i32, String)>| answer_view(a, |p: Pick<R>| pick_view(p)),
            ),
    {
        let mut s = why;
        if interactive {
            s.append(". Enter your ZIP code instead:\n");
            self.say(s.as_str());
            self.ask_zip(x, 3)
        } else {
            s.append(" - pass --zip or --rate instead");
            Ok(Err((1, s)))
        }
    }

    fn locate(&mut self, x: &Texts, interactive: bool) -> (r: Result<
        Result<Option<Pick<R>>, (i32, String)>,
        Request<R>,
    >)
        ensures
            is_out(
                final(self)@,
                r,
                ip_lookup(old(self)@, *x, interactive),
                |a: Result<Option<Pick<R>>, (i32, String)>| answer_view(a, |p: Pick<R>| pick_view(p)),
            ),
    {
        match self.location_event() {
            None => Err(Request::Locate),
            Some(Located::Failed(e)) => {
                let mut s = "the location lookup failed (".to_owned();
                s.append(e.as_str());
                s.append(")");
                self.ip_falls_back(x, interactive, s)
            },
            Some(Located::NotCovered(region)) => {
                let mut s = x.ip_name.clone();
                s.append(" places you in '");
                s.append(region.as_str());
                s.append("', which EIA's state table does not cover");
                self.ip_falls_back(x, interactive, s)
            },
            Some(Located::NotUs(country)) => {
                let mut s = x.ip_name.clone();
                s.append(" places you outside the US (");
                s.append(country.as_str());
                s.append("); the built-in table covers US states only");
                if interactive {
                    s.append(". Type the rate from your bill:\n");
                    self.say(s.as_str());
                    self.ask_typed()
                } else {
                    s.append(" - pass --rate instead");
                    Ok(Err((1, s)))
                }
            },
            Some(Located::State(code, place, cents, price, city)) => {
                let at: String = if city.as_str().is_empty() {
                    place
                } else {
                    let mut a = city;
                    a.append(", ");
                    a.append(place.as_str());
                    a
                };
                let mut how = "an IP lookup via ".to_owned();
                how.append(x.ip_name.as_str());
                let pick = Pick { price, origin: RateOrigin::StateAverage { code, how } };
                let mut s = x.ip_name.clone();
                if interactive {
                    s.append(" places you in ");
                    s.append(at.as_str());
                    s.append(": average home rate ");
                    s.append(cents.as_str());
                    s.append("c/kWh (U.S. EIA, ");
                    s.append(x.eia_month.as_str());
                    s.append(").\nUse it? [Y/n] ");
                    match self.yes_no(s.as_str(), true) {
                        Err(q) => Err(q),
                        Ok(true) => Ok(Ok(Some(pick))),
                        Ok(false) => self.ask_zip(x, 3),
                    }
                } else {
                    s.append(": ");
                    s.append(at.as_str());
                    s.append(" -> ");
                    s.append(cents.as_str());
                    s.append("c/kWh average residential (EIA, ");
                    s.append(x.eia_month.as_str());
                    s.append(")\n");
                    self.say(s.as_str());
                    Ok(Ok(Some(pick)))
                }
            },
        }
    }

    fn from_ip(&mut self, x: &Texts, interactive: bool) -> (r: Result<
        Result<Option<Pick<R>>, (i32, String)>,
        Request<R>,
    >)
        ensures
            is_out(
                final(self)@,
                r,
                ip_dialog(old(self)@, *x, interactive),
                |a: Result<Option<Pick<R>>, (i32, String)>| answer_view(a, |p: Pick<R>| pick_view(p)),
            ),
    {
        if !interactive {
            return self.locate(x, false);
        }
        let mut s = "This sends ONE request to ".to_owned();
        s.append(x.ip_url.as_str());
        s.append(". ");
        s.append(x.ip_name.as_str());
        s.append(" sees your public IP address and answers with\n");
        self.say(s.as_str());
        self.say(
            "an approximate location (city, state, country). Nothing else is sent, and lss keeps only the state.\n",
        );
        let mut q = "Contact ".to_owned();
        q.append(x.ip_name.as_str());
        q.append(" now? [y/N] ");
        match self.yes_no(q.as_str(), false) {
            Err(q) => Err(q),
            Ok(true) => self.locate(x, true),
            Ok(false) => {
                self.say("Not contacted. Your ZIP code works without the network:\n");
                self.ask_zip(x, 3)
            },
        }
    }
}

// ------------------------------------------------------------ a time-of-use plan

/// A question with its default in brackets, or with a colon where it has none.
pub open spec fn price_prompt(q: Seq<char>, default: Option<Seq<char>>) -> Seq<char> {
    match default {
        Some(d) => q + " ["@ + d + "] "@,
        None => q + ": "@,
    }
}

/// Asks for a price, `n` times at most. Nothing typed is the default, where there is one.
pub open spec fn price_dialog<R>(
    t: Talk<R>,
    q: Seq<char>,
    default: Option<(R, Seq<char>)>,
    n: nat,
) -> Out<R, Result<Option<(R, Seq<char>)>, (int, Seq<char>)>>
    decreases n,
{
    if n == 0 {
        Out::Got(t, Err((1, "no usable price after 3 tries - nothing written"@)))
    } else {
        match ask(
            t,
            price_prompt(
                q,
                match default {
                    Some(d) => Some(d.1),
                    None => None,
                },
            ),
        ) {
            Out::Need(t, q) => Out::Need(t, q),
            Out::Got(t, None) => Out::Got(t, Ok(None)),
            Out::Got(t, Some(a)) => if trimmed(a).len() == 0 && default is Some {
                Out::Got(t, Ok(default))
            } else {
                match read_rate(t, a) {
                    Out::Need(t, q) => Out::Need(t, q),
                    Out::Got(t, (Err(e), _)) => price_dialog(
                        say(t, e + ".\n"@),
                        q,
                        default,
                        (n - 1) as nat,
                    ),
                    Out::Got(t, (Ok(p), doubt)) => match confirmed(t, doubt) {
                        Out::Need(t, q) => Out::Need(t, q),
                        Out::Got(t, true) => Out::Got(t, Ok(Some(p))),
                        Out::Got(t, false) => price_dialog(t, q, default, (n - 1) as nat),
                    },
                }
            },
        }
    }
}

/// What a text is as a whole number from `lo` to `hi`.
pub open spec fn number_in(a: Seq<char>, lo: u32, hi: u32) -> Option<u32> {
    match parse_int(a, false) {
        Some(n) if lo <= n <= hi => Some(n as u32),
        _ => None,
    }
}

/// Asks for a whole number from `lo` to `hi`, `n` times at most. Nothing typed is the default.
pub open spec fn number_dialog<R>(
    t: Talk<R>,
    q: Seq<char>,
    default: u32,
    lo: u32,
    hi: u32,
    n: nat,
) -> Out<R, Result<Option<u32>, (int, Seq<char>)>>
    decreases n,
{
    if n == 0 {
        Out::Got(t, Err((1, "no usable number after 3 tries - nothing written"@)))
    } else {
        match ask(t, q + " ["@ + dec(default as nat) + "] "@) {
            Out::Need(t, q) => Out::Need(t, q),
            Out::Got(t, None) => Out::Got(t, Ok(None)),
            Out::Got(t, Some(a)) => if trimmed(a).len() == 0 {
                Out::Got(t, Ok(Some(default)))
            } else {
                match number_in(trimmed(a), lo, hi) {
                    Some(v) => Out::Got(t, Ok(Some(v))),
                    None => number_dialog(
                        say(
                            t,
                            "'"@ + trimmed(a) + "' is not a whole number from "@ + dec(lo as nat)
                                + " to "@ + dec(hi as nat) + ".\n"@,
                        ),
                        q,
                        default,
                        lo,
                        hi,
                        (n - 1) as nat,
                    ),
                }
            },
        }
    }
}

/// `s` without the dollar signs it starts with.
pub open spec fn without_dollars(s: Seq<char>) -> Seq<char>
    decreases s.len(),
{
    if s.len() > 0 && s[0] == '$' {
        without_dollars(s.drop_first())
    } else {
        s
    }
}

/// Asks for the fixed daily charge, `n` times at most. Nothing typed is none.
pub open spec fn charge_dialog<R>(t: Talk<R>, zero: R, n: nat) -> Out<
    R,
    Result<Option<R>, (int, Seq<char>)>,
>
    decreases n,
{
    if n == 0 {
        Out::Got(t, Err((1, "no usable daily charge after 3 tries - nothing written"@)))
    } else {
        match ask(t, "Fixed daily charge, $ per day (0 if none or not sure) [0] "@) {
            Out::Need(t, q) => Out::Need(t, q),
            Out::Got(t, None) => Out::Got(t, Ok(None)),
            Out::Got(t, Some(a)) => {
                let c = without_dollars(trimmed(a));
                if c.len() == 0 {
                    Out::Got(t, Ok(Some(zero)))
                } else {
                    match next(t) {
                        Some(Event::Charge(Some(v))) => Out::Got(used(t), Ok(Some(v))),
                        Some(Event::Charge(None)) => charge_dialog(
                            say(
                                used(t),
                                "'"@ + c + "' is not a dollar amount per day (e.g. 0.25).\n"@,
                            ),
                            zero,
                            (n - 1) as nat,
                        ),
                        _ => Out::Need(t, RequestView::ParseCharge(c)),
                    }
                }
            },
        }
    }
}

fn strip_dollars(s: &str) -> (r: String)
    ensures
        r@ == without_dollars(s@),
{
    let v = chars_of(s);
    let mut from: usize = 0;
    assert(v@.subrange(0, v@.len() as int) =~= v@);
    while from < v.len() && v[from] == '$'
        invariant
            from <= v@.len(),
            without_dollars(s@) == without_dollars(v@.subrange(from as int, v@.len() as int)),
        decreases v@.len() - from,
    {
        assert(v@.subrange(from as int, v@.len() as int).drop_first() =~= v@.subrange(
            from + 1,
            v@.len() as int,
        ));
        from += 1;
    }
    string_of(&v, from, v.len())
}

impl<R: Copy> Tape<R> {
    fn ask_price(&mut self, q: &str, default: Option<&Price<R>>, n: u32) -> (r: Result<
        Result<Option<Price<R>>, (i32, String)>,
        Request<R>,
    >)
        ensures
            is_out(
                final(self)@,
                r,
                price_dialog(
                    old(self)@,
                    q@,
                    match default {
                        Some(d) => Some(price_view(*d)),
                        None => None,
                    },
                    n as nat,
                ),
                |a: Result<Option<Price<R>>, (i32, String)>|
                    answer_view(a, |p: Price<R>| price_view(p)),
            ),
        decreases n,
    {
        if n == 0 {
            return Ok(Err((1, "no usable price after 3 tries - nothing written".to_owned())));
        }
        let mut prompt = q.to_owned();
        match default {
            Some(d) => {
                prompt.append(" [");
                prompt.append(d.shown.as_str());
                prompt.append("] ");
            },
            None => {
                prompt.append(": ");
            },
        }
        let a = match self.ask(prompt.as_str()) {
            Err(q) => {
                return Err(q);
            },
            Ok(None) => {
                return Ok(Ok(None));
            },
            Ok(Some(a)) => a,
        };
        if trim(a.as_str()).as_str().is_empty() {
            if let Some(d) = default {
                return Ok(Ok(Some(d.copy())));
            }
        }
        match self.parse_rate(a.as_str()) {
            Err(q) => Err(q),
            Ok((Err(e), _)) => {
                let mut s = e;
                s.append(".\n");
                self.say(s.as_str());
                self.ask_price(q, default, n - 1)
            },
            Ok((Ok(p), doubt)) => match self.cents_confirmed(&doubt) {
                Err(q) => Err(q),
                Ok(true) => Ok(Ok(Some(p))),
                Ok(false) => self.ask_price(q, default, n - 1),
            },
        }
    }

    fn ask_number(&mut self, q: &str, default: u32, lo: u32, hi: u32, n: u32) -> (r: Result<
        Result<Option<u32>, (i32, String)>,
        Request<R>,
    >)
        ensures
            is_out(
                final(self)@,
                r,
                number_dialog(old(self)@, q@, default, lo, hi, n as nat),
                |a: Result<Option<u32>, (i32, String)>| answer_view(a, |p: u32| p),
            ),
        decreases n,
    {
        if n == 0 {
            return Ok(Err((1, "no usable number after 3 tries - nothing written".to_owned())));
        }
        let mut prompt = q.to_owned();
        prompt.append(" [");
        prompt.append(dec_u64(default as u64).as_str());
        prompt.append("] ");
        let a = match self.ask(prompt.as_str()) {
            Err(q) => {
                return Err(q);
            },
            Ok(None) => {
                return Ok(Ok(None));
            },
            Ok(Some(a)) => trim(a.as_str()),
        };
        if a.as_str().is_empty() {
            return Ok(Ok(Some(default)));
        }
        if let Some(v) = parse_u64(a.as_str()) {
            if lo as u64 <= v && v <= hi as u64 {
                return Ok(Ok(Some(v as u32)));
            }
        }
        let mut s = "'".to_owned();
        s.append(a.as_str());
        s.append("' is not a whole number from ");
        s.append(dec_u64(lo as u64).as_str());
        s.append(" to ");
        s.append(dec_u64(hi as u64).as_str());
        s.append(".\n");
        self.say(s.as_str());
        self.ask_number(q, default, lo, hi, n - 1)
    }

    fn charge_event(&mut self) -> (r: Option<Option<R>>)
        ensures
            match next(old(self)@) {
                Some(Event::Charge(c)) => final(self)@ == used(old(self)@) && r == Some(c),
                _ => r is None && final(self)@ == old(self)@,
            },
    {
        if self.at >= self.events.len() {
            return None;
        }
        let mut got: Option<Option<R>> = None;
        if let Event::Charge(c) = &self.events[self.at] {
            got = Some(*c);
        }
        if got.is_some() {
            self.at = self.at + 1;
        }
        got
    }

    fn price_or_zero(&mut self, zero: R, n: u32) -> (r: Result<
        Result<Option<R>, (i32, String)>,
        Request<R>,
    >)
        ensures
            is_out(
                final(self)@,
                r,
                charge_dialog(old(self)@, zero, n as nat),
                |a: Result<Option<R>, (i32, String)>| answer_view(a, |p: R| p),
            ),
        decreases n,
    {
        if n == 0 {
            return Ok(
                Err((1, "no usable daily charge after 3 tries - nothing written".to_owned())),
            );
        }
        let a = match self.ask("Fixed daily charge, $ per day (0 if none or not sure) [0] ") {
            Err(q) => {
                return Err(q);
            },
            Ok(None) => {
                return Ok(Ok(None));
            },
            Ok(Some(a)) => strip_dollars(trim(a.as_str()).as_str()),
        };
        if a.as_str().is_empty() {
            return Ok(Ok(Some(zero)));
        }
        match self.charge_event() {
            None => Err(Request::ParseCharge(a)),
            Some(Some(v)) => Ok(Ok(Some(v))),
            Some(None) => {
                let mut s = "'".to_owned();
                s.append(a.as_str());
                s.append("' is not a dollar amount per day (e.g. 0.25).\n");
                self.say(s.as_str());
                self.price_or_zero(zero, n - 1)
            },
        }
    }
}

/// Goes on with a value; an ended input, an error or an open request end the dialog.
pub open spec fn go_on<R, A, B>(
    o: Out<R, Result<Option<A>, (int, Seq<char>)>>,
    f: spec_fn(Talk<R>, A) -> Out<R, Result<Option<B>, (int, Seq<char>)>>,
) -> Out<R, Result<Option<B>, (int, Seq<char>)>> {
    match o {
        Out::Need(t, q) => Out::Need(t, q),
        Out::Got(t, Ok(Some(a))) => f(t, a),
        Out::Got(t, Ok(None)) => Out::Got(t, Ok(None)),
        Out::Got(t, Err(e)) => Out::Got(t, Err(e)),
    }
}

/// The peak of a plan: its price and its hours.
#[verifier::opaque]
pub open spec fn peak_dialog<R>(t: Talk<R>) -> Out<
    R,
    Result<Option<((R, Seq<char>), u32, u32)>, (int, Seq<char>)>,
> {
    go_on(
        price_dialog(t, "On-peak price, $ per kWh (e.g. 0.52)"@, None, 3),
        |t: Talk<R>, on: (R, Seq<char>)|
            go_on(
                number_dialog(t, "On-peak starts at (local hour, 0-23)"@, 16, 0, 23, 3),
                |t: Talk<R>, start: u32|
                    go_on(
                        number_dialog(t, "On-peak ends at (local hour, 1-24)"@, 21, 1, 24, 3),
                        |t: Talk<R>, end: u32| Out::Got(t, Ok(Some((on, start, end)))),
                    ),
            ),
    )
}

/// A plan's winter, where it has one of its own.
#[verifier::opaque]
pub open spec fn seasons_dialog<R>(t: Talk<R>, on: (R, Seq<char>)) -> Out<
    R,
    Result<Option<Option<SeasonsView<R>>>, (int, Seq<char>)>,
> {
    match yes_or_no(t, "Does the plan change between summer and winter? [y/N] "@, false) {
        Out::Need(t, q) => Out::Need(t, q),
        Out::Got(t, false) => Out::Got(t, Ok(Some(None))),
        Out::Got(t, true) => go_on(
            number_dialog(t, "Summer starts in month (1-12)"@, 6, 1, 12, 3),
            |t: Talk<R>, summer_start: u32|
                go_on(
                    number_dialog(t, "Winter starts in month (1-12)"@, 10, 1, 12, 3),
                    |t: Talk<R>, summer_end: u32|
                        go_on(
                            price_dialog(
                                t,
                                "Winter on-peak price, $ per kWh (the same hours, EVERY day in winter - weekends too)"@,
                                Some(on),
                                3,
                            ),
                            |t: Talk<R>, winter_peak: (R, Seq<char>)|
                                Out::Got(
                                    t,
                                    Ok(
                                        Some(
                                            Some(
                                                SeasonsView {
                                                    summer_start,
                                                    summer_end,
                                                    winter_peak,
                                                },
                                            ),
                                        ),
                                    ),
                                ),
                        ),
                ),
        ),
    }
}

/// One round of the questions of a plan.
#[verifier::opaque]
pub open spec fn plan_dialog<R>(t: Talk<R>, zero: R) -> Out<
    R,
    Result<Option<PlanView<R>>, (int, Seq<char>)>,
> {
    go_on(
        peak_dialog(t),
        |t: Talk<R>, peak: ((R, Seq<char>), u32, u32)|
            go_on(
                price_dialog(t, "Off-peak price, $ per kWh (the other hours)"@, None, 3),
                |t: Talk<R>, off_peak: (R, Seq<char>)|
                    go_on(
                        price_dialog(
                            t,
                            "Weekend/holiday price in those same hours, $ per kWh"@,
                            Some(peak.0),
                            3,
                        ),
                        |t: Talk<R>, weekend_peak: (R, Seq<char>)|
                            go_on(
                                seasons_dialog(t, peak.0),
                                |t: Talk<R>, seasons: Option<SeasonsView<R>>|
                                    go_on(
                                        charge_dialog(t, zero, 3),
                                        |t: Talk<R>, fixed: R|
                                            Out::Got(
                                                t,
                                                Ok(
                                                    Some(
                                                        PlanView {
                                                            on_peak: peak.0,
                                                            peak_start: peak.1,
                                                            peak_end: peak.2,
                                                            off_peak,
                                                            weekend_peak,
                                                            seasons,
                                                            fixed_usd_per_day: fixed,
                                                        },
                                                    ),
                                                ),
                                            ),
                                    ),
                            ),
                    ),
            ),
    )
}

/// The doubts said, one after the other.
pub open spec fn say_doubts<R>(t: Talk<R>, doubts: Seq<Seq<char>>) -> Talk<R>
    decreases doubts.len(),
{
    if doubts.len() == 0 {
        t
    } else {
        say(say_doubts(t, doubts.drop_last()), "Are you sure? "@ + doubts.last() + ".\n"@)
    }
}

/// Asks for a plan, `n` times at most: one that cannot be used, or that is doubted and not
/// confirmed, is asked for again.
pub open spec fn tou_rounds<R>(t: Talk<R>, zero: R, n: nat) -> Out<
    R,
    Result<Option<PlanView<R>>, (int, Seq<char>)>,
>
    decreases n,
{
    if n == 0 {
        Out::Got(t, Err((1, "no usable time-of-use plan after 3 tries - nothing written"@)))
    } else {
        match plan_dialog(t, zero) {
            Out::Need(t, q) => Out::Need(t, q),
            Out::Got(t, Err(e)) => Out::Got(t, Err(e)),
            Out::Got(t, Ok(None)) => Out::Got(t, Ok(None)),
            Out::Got(t, Ok(Some(plan))) => match next(t) {
                Some(Event::Checked(Err(e))) => tou_rounds(
                    say(used(t), "That plan cannot be used: "@ + e@ + ". Once more:\n"@),
                    zero,
                    (n - 1) as nat,
                ),
                Some(Event::Checked(Ok(doubts))) => if doubts@.len() == 0 {
                    Out::Got(used(t), Ok(Some(plan)))
                } else {
                    match yes_or_no(
                        say_doubts(used(t), views(doubts@)),
                        "Use these numbers anyway? [y/N] "@,
                        false,
                    ) {
                        Out::Need(t, q) => Out::Need(t, q),
                        Out::Got(t, true) => Out::Got(t, Ok(Some(plan))),
                        Out::Got(t, false) => tou_rounds(
                            say(t, "Once more:\n"@),
                            zero,
                            (n - 1) as nat,
                        ),
                    }
                },
                _ => Out::Need(t, RequestView::CheckTou(plan)),
            },
        }
    }
}

/// The dialog for a plan.
pub open spec fn tou_dialog<R>(t: Talk<R>, zero: R) -> Out<
    R,
    Result<Option<PlanView<R>>, (int, Seq<char>)>,
> {
    tou_rounds(
        say(
            say(
                say(
                    t,
                    "\nA time-of-use plan: one peak window on weekdays, its own price on weekends and holidays in\n"@,
                ),
                "the same hours, off-peak the rest - optionally different in summer and winter. Take the numbers\n"@,
            ),
            "from your bill or your utility's tariff page. (More periods, holidays: edit rates.toml afterwards.)\n"@,
        ),
        zero,
        3,
    )
}

/// A plan's check, where it was made.
pub enum Checked {
    Refused(String),
    Doubts(Vec<String>),
}

impl<R: Copy> Tape<R> {
    fn ask_peak(&mut self) -> (r: Result<
        Result<Option<(Price<R>, u32, u32)>, (i32, String)>,
        Request<R>,
    >)
        ensures
            is_out(
                final(self)@,
                r,
                peak_dialog(old(self)@),
                |a: Result<Option<(Price<R>, u32, u32)>, (i32, String)>|
                    answer_view(a, |p: (Price<R>, u32, u32)| (price_view(p.0), p.1, p.2)),
            ),
    {
        proof {
            reveal(peak_dialog);
        }
        let on = match self.ask_price("On-peak price, $ per kWh (e.g. 0.52)", None, 3) {
            Err(q) => {
                return Err(q);
            },
            Ok(Err(e)) => {
                return Ok(Err(e));
            },
            Ok(Ok(None)) => {
                return Ok(Ok(None));
            },
            Ok(Ok(Some(v))) => v,
        };
        let start: u32 = match self.ask_number("On-peak starts at (local hour, 0-23)", 16, 0, 23, 3) {
            Err(q) => {
                return Err(q);
            },
            Ok(Err(e)) => {
                return Ok(Err(e));
            },
            Ok(Ok(None)) => {
                return Ok(Ok(None));
            },
            Ok(Ok(Some(v))) => v,
        };
        match self.ask_number("On-peak ends at (local hour, 1-24)", 21, 1, 24, 3) {
            Err(q) => Err(q),
            Ok(Err(e)) => Ok(Err(e)),
            Ok(Ok(None)) => Ok(Ok(None)),
            Ok(Ok(Some(end))) => Ok(Ok(Some((on, start, end)))),
        }
    }

    fn ask_seasons(&mut self, on: &Price<R>) -> (r: Result<
        Result<Option<Option<Seasons<R>>>, (i32, String)>,
        Request<R>,
    >)
        ensures
            is_out(
                final(self)@,
                r,
                seasons_dialog(old(self)@, price_view(*on)),
                |a: Result<Option<Option<Seasons<R>>>, (i32, String)>|
                    answer_view(a, |p: Option<Seasons<R>>| seasons_view(p)),
            ),
    {
        proof {
            reveal(seasons_dialog);
        }
        match self.yes_no("Does the plan change between summer and winter? [y/N] ", false) {
            Err(q) => {
                return Err(q);
            },
            Ok(false) => {
                return Ok(Ok(Some(None)));
            },
            Ok(true) => {},
        }
        let summer_start: u32 = match self.ask_number("Summer starts in month (1-12)", 6, 1, 12, 3) {
            Err(q) => {
                return Err(q);
            },
            Ok(Err(e)) => {
                return Ok(Err(e));
            },
            Ok(Ok(None)) => {
                return Ok(Ok(None));
            },
            Ok(Ok(Some(v))) => v,
        };
        let summer_end: u32 = match self.ask_number("Winter starts in month (1-12)", 10, 1, 12, 3) {
            Err(q) => {
                return Err(q);
            },
            Ok(Err(e)) => {
                return Ok(Err(e));
            },
            Ok(Ok(None)) => {
                return Ok(Ok(None));
            },
            Ok(Ok(Some(v))) => v,
        };
        match self.ask_price(
            "Winter on-peak price, $ per kWh (the same hours, EVERY day in winter - weekends too)",
            Some(on),
            3,
        ) {
            Err(q) => Err(q),
            Ok(Err(e)) => Ok(Err(e)),
            Ok(Ok(None)) => Ok(Ok(None)),
            Ok(Ok(Some(winter_peak))) => Ok(
                Ok(Some(Some(Seasons { summer_start, summer_end, winter_peak }))),
            ),
        }
    }

    fn ask_plan(&mut self, zero: R) -> (r: Result<
        Result<Option<TouPlan<R>>, (i32, String)>,
        Request<R>,
    >)
        ensures
            is_out(
                final(self)@,
                r,
                plan_dialog(old(self)@, zero),
                |a: Result<Option<TouPlan<R>>, (i32, String)>|
                    answer_view(a, |p: TouPlan<R>| plan_view(p)),
            ),
    {
        proof {
            reveal(plan_dialog);
        }
        let (on_peak, peak_start, peak_end) = match self.ask_peak() {
            Err(q) => {
                return Err(q);
            },
            Ok(Err(e)) => {
                return Ok(Err(e));
            },
            Ok(Ok(None)) => {
                return Ok(Ok(None));
            },
            Ok(Ok(Some(v))) => v,
        };
        let off_peak = match self.ask_price("Off-peak price, $ per kWh (the other hours)", None, 3) {
            Err(q) => {
                return Err(q);
            },
            Ok(Err(e)) => {
                return Ok(Err(e));
            },
            Ok(Ok(None)) => {
                return Ok(Ok(None));
            },
            Ok(Ok(Some(v))) => v,
        };
        let weekend_peak = match self.ask_price(
            "Weekend/holiday price in those same hours, $ per kWh",
            Some(&on_peak),
            3,
        ) {
            Err(q) => {
                return Err(q);
            },
            Ok(Err(e)) => {
                return Ok(Err(e));
            },
            Ok(Ok(None)) => {
                return Ok(Ok(None));
            },
            Ok(Ok(Some(v))) => v,
        };
        let seasons = match self.ask_seasons(&on_peak) {
            Err(q) => {
                return Err(q);
            },
            Ok(Err(e)) => {
                return Ok(Err(e));
            },
            Ok(Ok(None)) => {
                return Ok(Ok(None));
            },
            Ok(Ok(Some(v))) => v,
        };
        match self.price_or_zero(zero, 3) {
            Err(q) => Err(q),
            Ok(Err(e)) => Ok(Err(e)),
            Ok(Ok(None)) => Ok(Ok(None)),
            Ok(Ok(Some(fixed_usd_per_day))) => Ok(
                Ok(
                    Some(
                        TouPlan {
                            on_peak,
                            peak_start,
                            peak_end,
                            off_peak,
                            weekend_peak,
                            seasons,
                            fixed_usd_per_day,
                        },
                    ),
                ),
            ),
        }
    }

    fn checked_event(&mut self) -> (r: Option<Checked>)
        ensures
            match next(old(self)@) {
                Some(Event::Checked(c)) => final(self)@ == used(old(self)@) && (match c {
                    Ok(d) => r matches Some(Checked::Doubts(v)) && views(v@) == views(d@) && v@.len()
                        == d@.len(),
                    Err(e) => r matches Some(Checked::Refused(s)) && s@ == e@,
                }),
                _ => r is None && final(self)@ == old(self)@,
            },
    {
        if self.at >= self.events.len() {
            return None;
        }
        let mut got: Option<Checked> = None;
        if let Event::Checked(c) = &self.events[self.at] {
            got = Some(
                match c {
                    Ok(d) => {
                        let mut v: Vec<String> = Vec::new();
                        let mut i: usize = 0;
                        while i < d.len()
                            invariant
                                i <= d@.len(),
                                v@ == d@.take(i as int),
                            decreases d@.len() - i,
                        {
                            v.push(d[i].clone());
                            i += 1;
                        }
                        assert(d@.take(d@.len() as int) =~= d@);
                        Checked::Doubts(v)
                    },
                    Err(e) => Checked::Refused(e.clone()),
                },
            );
        }
        if got.is_some() {
            self.at = self.at + 1;
        }
        got
    }

    fn doubts_said(&mut self, doubts: &Vec<String>)
        ensures
            final(self)@ == say_doubts(old(self)@, views(doubts@)),
    {
        let mut i: usize = 0;
        let ghost all = views(doubts@);
        let ghost t0 = self@;
        while i < doubts.len()
            invariant
                i <= doubts@.len(),
                all == views(doubts@),
                self@ == say_doubts(t0, all.take(i as int)),
            decreases doubts@.len() - i,
        {
            proof {
                assert(all.take(i + 1).drop_last() =~= all.take(i as int));
                assert(all.take(i + 1).last() == doubts@[i as int]@);
            }
            let mut s = "Are you sure? ".to_owned();
            s.append(doubts[i].as_str());
            s.append(".\n");
            self.say(s.as_str());
            i += 1;
        }
        assert(all.take(all.len() as int) =~= all);
    }

    fn ask_rounds(&mut self, zero: R, n: u32) -> (r: Result<
        Result<Option<TouPlan<R>>, (i32, String)>,
        Request<R>,
    >)
        ensures
            is_out(
                final(self)@,
                r,
                tou_rounds(old(self)@, zero, n as nat),
                |a: Result<Option<TouPlan<R>>, (i32, String)>|
                    answer_view(a, |p: TouPlan<R>| plan_view(p)),
            ),
        decreases n,
    {
        if n == 0 {
            return Ok(
                Err((1, "no usable time-of-use plan after 3 tries - nothing written".to_owned())),
            );
        }
        let plan = match self.ask_plan(zero) {
            Err(q) => {
                return Err(q);
            },
            Ok(Err(e)) => {
                return Ok(Err(e));
            },
            Ok(Ok(None)) => {
                return Ok(Ok(None));
            },
            Ok(Ok(Some(v))) => v,
        };
        match self.checked_event() {
            None => Err(Request::CheckTou(plan)),
            Some(Checked::Refused(e)) => {
                let mut s = "That plan cannot be used: ".to_owned();
                s.append(e.as_str());
                s.append(". Once more:\n");
                self.say(s.as_str());
                self.ask_rounds(zero, n - 1)
            },
            Some(Checked::Doubts(d)) => {
                if d.len() == 0 {
                    return Ok(Ok(Some(plan)));
                }
                self.doubts_said(&d);
                match self.yes_no("Use these numbers anyway? [y/N] ", false) {
                    Err(q) => Err(q),
                    Ok(true) => Ok(Ok(Some(plan))),
                    Ok(false) => {
                        self.say("Once more:\n");
                        self.ask_rounds(zero, n - 1)
                    },
                }
            },
        }
    }

    fn ask_tou(&mut self, zero: R) -> (r: Result<
        Result<Option<TouPlan<R>>, (i32, String)>,
        Request<R>,
    >)
        ensures
            is_out(
                final(self)@,
                r,
                tou_dialog(old(self)@, zero),
                |a: Result<Option<TouPlan<R>>, (i32, String)>|
                    answer_view(a, |p: TouPlan<R>| plan_view(p)),
            ),
    {
        self.say(
            "\nA time-of-use plan: one peak window on weekdays, its own price on weekends and holidays in\n",
        );
        self.say(
            "the same hours, off-peak the rest - optionally different in summer and winter. Take the numbers\n",
        );
        self.say(
            "from your bill or your utility's tariff page. (More periods, holidays: edit rates.toml afterwards.)\n",
        );
        self.ask_rounds(zero, 3)
    }
}

// --------------------------------------------------------------------- the menu

/// What the menu picks: a flat rate or a plan.
pub enum Choice<R> {
    Flat(Pick<R>),
    Tou(TouPlan<R>),
}

/// What the menu picks, as values.
pub enum ChoiceView<R> {
    Flat(((R, Seq<char>), OriginView)),
    Tou(PlanView<R>),
}

/// A choice as values.
pub open spec fn choice_view<R>(c: Choice<R>) -> ChoiceView<R> {
    match c {
        Choice::Flat(p) => ChoiceView::Flat(pick_view(p)),
        Choice::Tou(p) => ChoiceView::Tou(plan_view(p)),
    }
}

/// A flat rate as a choice.
pub open spec fn flat_choice<R>(
    o: Out<R, Result<Option<((R, Seq<char>), OriginView)>, (int, Seq<char>)>>,
) -> Out<R, Result<Option<ChoiceView<R>>, (int, Seq<char>)>> {
    match o {
        Out::Need(t, q) => Out::Need(t, q),
        Out::Got(t, Ok(Some(p))) => Out::Got(t, Ok(Some(ChoiceView::Flat(p)))),
        Out::Got(t, Ok(None)) => Out::Got(t, Ok(None)),
        Out::Got(t, Err(e)) => Out::Got(t, Err(e)),
    }
}

/// The menu's question, `n` times at most.
pub open spec fn menu_rounds<R>(t: Talk<R>, x: Texts, zero: R, n: nat) -> Out<
    R,
    Result<Option<ChoiceView<R>>, (int, Seq<char>)>,
>
    decreases n,
{
    if n == 0 {
        Out::Got(t, Err((2, "no valid choice after 5 tries"@)))
    } else {
        match ask(t, "Choose 1-5 [1] "@) {
            Out::Need(t, q) => Out::Need(t, q),
            Out::Got(t, None) => Out::Got(t, Ok(None)),
            Out::Got(t, Some(a)) => {
                let c = trimmed(a);
                if c == ""@ || c == "1"@ {
                    flat_choice(zip_dialog(t, x, 3))
                } else if c == "2"@ {
                    flat_choice(ip_dialog(t, x, true))
                } else if c == "3"@ {
                    flat_choice(typed_dialog(t))
                } else if c == "4"@ || c == "s"@ || c == "skip"@ {
                    Out::Got(t, Ok(None))
                } else if c == "5"@ || c == "tou"@ {
                    go_on(
                        tou_dialog(t, zero),
                        |t: Talk<R>, p: PlanView<R>| Out::Got(t, Ok(Some(ChoiceView::Tou(p)))),
                    )
                } else {
                    menu_rounds(
                        say(t, "'"@ + c + "' is not one of 1-5.\n"@),
                        x,
                        zero,
                        (n - 1) as nat,
                    )
                }
            },
        }
    }
}

/// The menu said.
pub open spec fn menu_said<R>(t: Talk<R>, x: Texts) -> Talk<R> {
    say(
        say(
            say(
                say(
                    say(
                        say(
                            t,
                            "\nElectricity cost - how should lss price the power your GPUs draw?\n"@,
                        ),
                        "  1) my ZIP code       - my state's average home rate (U.S. EIA, "@
                            + x.eia_month@ + "); nothing is sent anywhere\n"@,
                    ),
                    "  2) look it up        - from my internet address, via ONE request to "@
                        + x.ip_name@ + " (asks first)\n"@,
                ),
                "  3) type my own rate  - $ per kWh from my electricity bill (the most accurate)\n"@,
            ),
            "  4) skip              - no cost figures for now\n"@,
        ),
        "  5) time-of-use plan  - type your bill's peak and off-peak prices and hours\n"@,
    )
}

impl<R: Copy> Tape<R> {
    fn flat(r: Result<Result<Option<Pick<R>>, (i32, String)>, Request<R>>) -> (c: Result<
        Result<Option<Choice<R>>, (i32, String)>,
        Request<R>,
    >)
        ensures
            match r {
                Err(q) => c == Err::<Result<Option<Choice<R>>, (i32, String)>, Request<R>>(q),
                Ok(a) => c matches Ok(b) && answer_view(b, |p: Choice<R>| choice_view(p)) == (
                match answer_view(a, |p: Pick<R>| pick_view(p)) {
                    Ok(Some(p)) => Ok(Some(ChoiceView::Flat(p))),
                    Ok(None) => Ok(None),
                    Err(e) => Err(e),
                }),
            },
    {
        match r {
            Err(q) => Err(q),
            Ok(Ok(Some(p))) => Ok(Ok(Some(Choice::Flat(p)))),
            Ok(Ok(None)) => Ok(Ok(None)),
            Ok(Err(e)) => Ok(Err(e)),
        }
    }

    fn ask_choice(&mut self, x: &Texts, zero: R, n: u32) -> (r: Result<
        Result<Option<Choice<R>>, (i32, String)>,
        Request<R>,
    >)
        ensures
            is_out(
                final(self)@,
                r,
                menu_rounds(old(self)@, *x, zero, n as nat),
                |a: Result<Option<Choice<R>>, (i32, String)>|
                    answer_view(a, |p: Choice<R>| choice_view(p)),
            ),
        decreases n,
    {
        if n == 0 {
            return Ok(Err((2, "no valid choice after 5 tries".to_owned())));
        }
        let c = match self.ask("Choose 1-5 [1] ") {
            Err(q) => {
                return Err(q);
            },
            Ok(None) => {
                return Ok(Ok(None));
            },
            Ok(Some(a)) => trim(a.as_str()),
        };
        let c = c.as_str();
        if same(c, "") || same(c, "1") {
            let a = self.ask_zip(x, 3);
            return Self::flat(a);
        }
        if same(c, "2") {
            let a = self.from_ip(x, true);
            return Self::flat(a);
        }
        if same(c, "3") {
            let a = self.ask_typed();
            return Self::flat(a);
        }
        if same(c, "4") || same(c, "s") || same(c, "skip") {
            return Ok(Ok(None));
        }
        if same(c, "5") || same(c, "tou") {
            return match self.ask_tou(zero) {
                Err(q) => Err(q),
                Ok(Err(e)) => Ok(Err(e)),
                Ok(Ok(None)) => Ok(Ok(None)),
                Ok(Ok(Some(p))) => Ok(Ok(Some(Choice::Tou(p)))),
            };
        }
        let mut s = "'".to_owned();
        s.append(c);
        s.append("' is not one of 1-5.\n");
        self.say(s.as_str());
        self.ask_choice(x, zero, n - 1)
    }

    fn ask_menu(&mut self, x: &Texts, zero: R) -> (r: Result<
        Result<Option<Choice<R>>, (i32, String)>,
        Request<R>,
    >)
        ensures
            is_out(
                final(self)@,
                r,
                menu_rounds(menu_said(old(self)@, *x), *x, zero, 5),
                |a: Result<Option<Choice<R>>, (i32, String)>|
                    answer_view(a, |p: Choice<R>| choice_view(p)),
            ),
    {
        self.say("\nElectricity cost - how should lss price the power your GPUs draw?\n");
        let mut s = "  1) my ZIP code       - my state's average home rate (U.S. EIA, ".to_owned();
        s.append(x.eia_month.as_str());
        s.append("); nothing is sent anywhere\n");
        self.say(s.as_str());
        let mut s = "  2) look it up        - from my internet address, via ONE request to ".to_owned();
        s.append(x.ip_name.as_str());
        s.append(" (asks first)\n");
        self.say(s.as_str());
        self.say("  3) type my own rate  - $ per kWh from my electricity bill (the most accurate)\n");
        self.say("  4) skip              - no cost figures for now\n");
        self.say("  5) time-of-use plan  - type your bill's peak and off-peak prices and hours\n");
        self.ask_choice(x, zero, 5)
    }
}

// ------------------------------------------------------------------- the writing

/// Nothing is written: what is there is left, or stays off.
pub open spec fn skipped<R>(t: Talk<R>, path: Seq<char>) -> Out<R, int> {
    match next(t) {
        Some(Event::Existing(Some(e))) => Out::Got(
            say(
                used(t),
                "skipped - the existing "@ + path + " ("@ + e@ + ") is left as it is\n"@,
            ),
            0,
        ),
        Some(Event::Existing(None)) => Out::Got(
            say(
                used(t),
                "skipped - cost tracking stays off. Run `lss-collector cost-setup` any time to turn it on.\n"@,
            ),
            0,
        ),
        _ => Out::Need(t, RequestView::Existing),
    }
}

/// The file itself: written, with `done` said, or the error.
pub open spec fn written<R>(t: Talk<R>, path: Seq<char>, text: Seq<char>, done: Seq<char>) -> Out<
    R,
    int,
> {
    match next(t) {
        Some(Event::Written(Ok(()))) => Out::Got(
            say(
                say(used(t), done),
                "restart the collector to use it (it reads rates.toml at start).\n"@,
            ),
            0,
        ),
        Some(Event::Written(Err(e))) => Out::Got(
            say(used(t), "cost-setup: cannot write "@ + path + ": "@ + e@ + "\n"@),
            1,
        ),
        _ => Out::Need(t, RequestView::Write(text)),
    }
}

/// A file that is there already: replaced where that is forced, or where a person is there and says
/// so, and else kept.
pub open spec fn stored<R>(
    t: Talk<R>,
    path: Seq<char>,
    text: Seq<char>,
    done: Seq<char>,
    force: bool,
    interactive: bool,
) -> Out<R, int> {
    match next(t) {
        Some(Event::Existing(None)) => written(used(t), path, text, done),
        Some(Event::Existing(Some(e))) => {
            let kept = "kept the existing "@ + path
                + " - nothing changed (use --force to replace it)\n"@;
            if force {
                written(used(t), path, text, done)
            } else if !interactive {
                Out::Got(say(used(t), kept), 3)
            } else {
                match yes_or_no(
                    used(t),
                    path + " already exists ("@ + e@ + "). Replace it? [y/N] "@,
                    false,
                ) {
                    Out::Need(t, q) => Out::Need(t, q),
                    Out::Got(t, true) => written(t, path, text, done),
                    Out::Got(t, false) => Out::Got(say(t, kept), 3),
                }
            }
        },
        _ => Out::Need(t, RequestView::Existing),
    }
}

/// What the wizard does with the text of a file: shows it, or stores it.
pub open spec fn delivered<R>(
    t: Talk<R>,
    o: OptsView,
    path: Seq<char>,
    text: Seq<char>,
    done: Seq<char>,
    interactive: bool,
) -> Out<R, int> {
    if o.dry_run {
        Out::Got(
            say(say(t, text), "(dry run - nothing written; would write "@ + path + ")\n"@),
            0,
        )
    } else {
        stored(t, path, text, done, o.force, interactive)
    }
}

/// The line that says which flat rate was stored.
pub open spec fn flat_line(label: Seq<char>, shown: Seq<char>, path: Seq<char>) -> Seq<char> {
    "rate: "@ + label + " = $"@ + shown + " /kWh -> "@ + path + "\n"@
}

/// The line that says which plan was stored.
pub open spec fn tou_line<R>(label: Seq<char>, p: PlanView<R>, path: Seq<char>) -> Seq<char> {
    "rate: "@ + label + " = on-peak $"@ + p.on_peak.1 + " /kWh "@ + dec(p.peak_start as nat) + "-"@
        + dec(p.peak_end as nat) + "h weekdays, off-peak $"@ + p.off_peak.1 + " /kWh -> "@ + path
        + "\n"@
}

/// A plan written.
pub open spec fn tou_written<R>(t: Talk<R>, o: OptsView, path: Seq<char>, p: PlanView<R>) -> Out<
    R,
    int,
> {
    match next(t) {
        Some(Event::Rendered { text, label }) => delivered(
            used(t),
            o,
            path,
            text@,
            tou_line(label@, p, path),
            true,
        ),
        _ => Out::Need(t, RequestView::RenderTou(p)),
    }
}

/// A flat rate written.
pub open spec fn flat_written<R>(
    t: Talk<R>,
    o: OptsView,
    path: Seq<char>,
    p: ((R, Seq<char>), OriginView),
) -> Out<R, int> {
    match next(t) {
        Some(Event::Rendered { text, label }) => delivered(
            used(t),
            o,
            path,
            text@,
            flat_line(label@, p.0.1, path),
            o.mode is Ask,
        ),
        _ => Out::Need(t, RequestView::Render(p.0, p.1)),
    }
}

/// What follows a pick: it is written, nothing is, or the error is said.
pub open spec fn picked<R>(
    t: Talk<R>,
    o: OptsView,
    path: Seq<char>,
    a: Result<Option<((R, Seq<char>), OriginView)>, (int, Seq<char>)>,
) -> Out<R, int> {
    match a {
        Ok(Some(p)) => flat_written(t, o, path, p),
        Ok(None) => skipped(t, path),
        Err(e) => Out::Got(say(t, "cost-setup: "@ + e.1 + "\n"@), e.0),
    }
}

/// A rate from the command line: with no one to ask, a doubtful one is refused.
pub open spec fn rate_flag<R>(t: Talk<R>, typed: Seq<char>) -> Out<
    R,
    Result<Option<((R, Seq<char>), OriginView)>, (int, Seq<char>)>,
> {
    match read_rate(t, typed) {
        Out::Need(t, q) => Out::Need(t, q),
        Out::Got(t, (_, Some(d))) => Out::Got(
            t,
            Err(
                (
                    1,
                    "--rate "@ + trimmed(typed) + ": "@ + d + ". If that is right, pass --rate "@
                        + trimmed(typed) + "c; otherwise pass the dollars, like --rate 0.31"@,
                ),
            ),
        ),
        Out::Got(t, (Ok(p), None)) => Out::Got(t, Ok(Some((p, OriginView::Manual)))),
        Out::Got(t, (Err(e), None)) => Out::Got(t, Err((1, e))),
    }
}

/// The whole wizard: its exit code, or the request that it is waiting for.
pub open spec fn wizard<R>(t: Talk<R>, o: OptsView, path: Seq<char>, x: Texts, zero: R) -> Out<R, int> {
    match o.mode {
        ModeView::Skip => skipped(t, path),
        ModeView::Ask => match menu_rounds(menu_said(t, x), x, zero, 5) {
            Out::Need(t, q) => Out::Need(t, q),
            Out::Got(t, Ok(Some(ChoiceView::Tou(p)))) => tou_written(t, o, path, p),
            Out::Got(t, Ok(Some(ChoiceView::Flat(p)))) => flat_written(t, o, path, p),
            Out::Got(t, Ok(None)) => skipped(t, path),
            Out::Got(t, Err(e)) => Out::Got(say(t, "cost-setup: "@ + e.1 + "\n"@), e.0),
        },
        ModeView::Zip(z) => match zip_flag(t, z, x.eia_month@) {
            Out::Need(t, q) => Out::Need(t, q),
            Out::Got(t, a) => picked(t, o, path, a),
        },
        ModeView::FromIp => match ip_dialog(t, x, false) {
            Out::Need(t, q) => Out::Need(t, q),
            Out::Got(t, a) => picked(t, o, path, a),
        },
        ModeView::Rate(r) => match rate_flag(t, r) {
            Out::Need(t, q) => Out::Need(t, q),
            Out::Got(t, a) => picked(t, o, path, a),
        },
    }
}

impl<R: Copy> Tape<R> {
    fn existing_event(&mut self) -> (r: Option<Option<String>>)
        ensures
            match next(old(self)@) {
                Some(Event::Existing(e)) => final(self)@ == used(old(self)@) && r is Some && opt_view(
                    r->0,
                ) == opt_view(e),
                _ => r is None && final(self)@ == old(self)@,
            },
    {
        if self.at >= self.events.len() {
            return None;
        }
        let mut got: Option<Option<String>> = None;
        if let Event::Existing(e) = &self.events[self.at] {
            got = Some(
                match e {
                    Some(s) => Some(s.clone()),
                    None => None,
                },
            );
        }
        if got.is_some() {
            self.at = self.at + 1;
        }
        got
    }

    fn written_event(&mut self) -> (r: Option<Option<String>>)
        ensures
            match next(old(self)@) {
                Some(Event::Written(w)) => final(self)@ == used(old(self)@) && r is Some && opt_view(
                    r->0,
                ) == (match w {
                    Ok(()) => None,
                    Err(e) => Some(e@),
                }),
                _ => r is None && final(self)@ == old(self)@,
            },
    {
        if self.at >= self.events.len() {
            return None;
        }
        let mut got: Option<Option<String>> = None;
        if let Event::Written(w) = &self.events[self.at] {
            got = Some(
                match w {
                    Ok(_) => None,
                    Err(e) => Some(e.clone()),
                },
            );
        }
        if got.is_some() {
            self.at = self.at + 1;
        }
        got
    }

    fn rendered_event(&mut self) -> (r: Option<(String, String)>)
        ensures
            match next(old(self)@) {
                Some(Event::Rendered { text, label }) => final(self)@ == used(old(self)@)
                    && r is Some && (r->0).0@ == text@ && (r->0).1@ == label@,
                _ => r is None && final(self)@ == old(self)@,
            },
    {
        if self.at >= self.events.len() {
            return None;
        }
        let mut got: Option<(String, String)> = None;
        if let Event::Rendered { text, label } = &self.events[self.at] {
            got = Some((text.clone(), label.clone()));
        }
        if got.is_some() {
            self.at = self.at + 1;
        }
        got
    }

    fn skip(&mut self, path: &str) -> (r: Result<i32, Request<R>>)
        ensures
            is_out(final(self)@, r, skipped(old(self)@, path@), |c: i32| c as int),
    {
        match self.existing_event() {
            None => Err(Request::Existing),
            Some(Some(e)) => {
                let mut s = "skipped - the existing ".to_owned();
                s.append(path);
                s.append(" (");
                s.append(e.as_str());
                s.append(") is left as it is\n");
                self.say(s.as_str());
                Ok(0)
            },
            Some(None) => {
                self.say(
                    "skipped - cost tracking stays off. Run `lss-collector cost-setup` any time to turn it on.\n",
                );
                Ok(0)
            },
        }
    }

    fn write(&mut self, path: &str, text: &str, done: &str) -> (r: Result<i32, Request<R>>)
        ensures
            is_out(final(self)@, r, written(old(self)@, path@, text@, done@), |c: i32| c as int),
    {
        match self.written_event() {
            None => Err(Request::Write(text.to_owned())),
            Some(None) => {
                self.say(done);
                self.say("restart the collector to use it (it reads rates.toml at start).\n");
                Ok(0)
            },
            Some(Some(e)) => {
                let mut s = "cost-setup: cannot write ".to_owned();
                s.append(path);
                s.append(": ");
                s.append(e.as_str());
                s.append("\n");
                self.say(s.as_str());
                Ok(1)
            },
        }
    }

    fn store(
        &mut self,
        path: &str,
        text: &str,
        done: &str,
        force: bool,
        interactive: bool,
    ) -> (r: Result<i32, Request<R>>)
        ensures
            is_out(
                final(self)@,
                r,
                stored(old(self)@, path@, text@, done@, force, interactive),
                |c: i32| c as int,
            ),
    {
        let existing = match self.existing_event() {
            None => {
                return Err(Request::Existing);
            },
            Some(None) => {
                return self.write(path, text, done);
            },
            Some(Some(e)) => e,
        };
        if force {
            return self.write(path, text, done);
        }
        if interactive {
            let mut q = path.to_owned();
            q.append(" already exists (");
            q.append(existing.as_str());
            q.append("). Replace it? [y/N] ");
            match self.yes_no(q.as_str(), false) {
                Err(q) => {
                    return Err(q);
                },
                Ok(true) => {
                    return self.write(path, text, done);
                },
                Ok(false) => {},
            }
        }
        let mut s = "kept the existing ".to_owned();
        s.append(path);
        s.append(" - nothing changed (use --force to replace it)\n");
        self.say(s.as_str());
        Ok(3)
    }

    fn deliver(&mut self, o: &Opts, path: &str, text: &str, done: &str, interactive: bool) -> (r:
        Result<i32, Request<R>>)
        ensures
            is_out(
                final(self)@,
                r,
                delivered(old(self)@, opts_view(*o), path@, text@, done@, interactive),
                |c: i32| c as int,
            ),
    {
        if o.dry_run {
            self.say(text);
            let mut s = "(dry run - nothing written; would write ".to_owned();
            s.append(path);
            s.append(")\n");
            self.say(s.as_str());
            return Ok(0);
        }
        self.store(path, text, done, o.force, interactive)
    }

    fn write_tou(&mut self, o: &Opts, path: &str, p: &TouPlan<R>) -> (r: Result<i32, Request<R>>)
        ensures
            is_out(
                final(self)@,
                r,
                tou_written(old(self)@, opts_view(*o), path@, plan_view(*p)),
                |c: i32| c as int,
            ),
    {
        let (text, label) = match self.rendered_event() {
            None => {
                return Err(Request::RenderTou(p.copy()));
            },
            Some(t) => t,
        };
        let mut s = "rate: ".to_owned();
        s.append(label.as_str());
        s.append(" = on-peak $");
        s.append(p.on_peak.shown.as_str());
        s.append(" /kWh ");
        s.append(dec_u64(p.peak_start as u64).as_str());
        s.append("-");
        s.append(dec_u64(p.peak_end as u64).as_str());
        s.append("h weekdays, off-peak $");
        s.append(p.off_peak.shown.as_str());
        s.append(" /kWh -> ");
        s.append(path);
        s.append("\n");
        self.deliver(o, path, text.as_str(), s.as_str(), true)
    }

    fn write_flat(&mut self, o: &Opts, path: &str, p: Pick<R>) -> (r: Result<i32, Request<R>>)
        ensures
            is_out(
                final(self)@,
                r,
                flat_written(old(self)@, opts_view(*o), path@, pick_view(p)),
                |c: i32| c as int,
            ),
    {
        let (text, label) = match self.rendered_event() {
            None => {
                return Err(Request::Render(p.price, p.origin));
            },
            Some(t) => t,
        };
        let mut s = "rate: ".to_owned();
        s.append(label.as_str());
        s.append(" = $");
        s.append(p.price.shown.as_str());
        s.append(" /kWh -> ");
        s.append(path);
        s.append("\n");
        let interactive = matches!(o.mode, Mode::Ask);
        self.deliver(o, path, text.as_str(), s.as_str(), interactive)
    }

    fn finish(&mut self, o: &Opts, path: &str, a: Result<Option<Pick<R>>, (i32, String)>) -> (r:
        Result<i32, Request<R>>)
        ensures
            is_out(
                final(self)@,
                r,
                picked(old(self)@, opts_view(*o), path@, answer_view(a, |p: Pick<R>| pick_view(p))),
                |c: i32| c as int,
            ),
    {
        match a {
            Ok(Some(p)) => self.write_flat(o, path, p),
            Ok(None) => self.skip(path),
            Err((code, msg)) => {
                let mut s = "cost-setup: ".to_owned();
                s.append(msg.as_str());
                s.append("\n");
                self.say(s.as_str());
                Ok(code)
            },
        }
    }

    fn rate_given(&mut self, typed: &str) -> (r: Result<
        Result<Option<Pick<R>>, (i32, String)>,
        Request<R>,
    >)
        ensures
            is_out(
                final(self)@,
                r,
                rate_flag(old(self)@, typed@),
                |a: Result<Option<Pick<R>>, (i32, String)>| answer_view(a, |p: Pick<R>| pick_view(p)),
            ),
    {
        match self.parse_rate(typed) {
            Err(q) => Err(q),
            Ok((_, Some(d))) => {
                let z = trim(typed);
                let mut s = "--rate ".to_owned();
                s.append(z.as_str());
                s.append(": ");
                s.append(d.as_str());
                s.append(". If that is right, pass --rate ");
                s.append(z.as_str());
                s.append("c; otherwise pass the dollars, like --rate 0.31");
                Ok(Err((1, s)))
            },
            Ok((Ok(p), None)) => Ok(Ok(Some(Pick { price: p, origin: RateOrigin::Manual }))),
            Ok((Err(e), None)) => Ok(Err((1, e))),
        }
    }
}

/// The whole wizard on the answers so far: its exit code, or the request that it is waiting for.
/// What there is to say up to there is on the tape.
pub fn run<R: Copy>(o: &Opts, path: &str, x: &Texts, zero: R, tape: &mut Tape<R>) -> (r: Result<
    i32,
    Request<R>,
>)
    ensures
        is_out(
            final(tape)@,
            r,
            wizard(old(tape)@, opts_view(*o), path@, *x, zero),
            |c: i32| c as int,
        ),
{
    match &o.mode {
        Mode::Skip => tape.skip(path),
        Mode::Ask => match tape.ask_menu(x, zero) {
            Err(q) => Err(q),
            Ok(Ok(Some(Choice::Tou(p)))) => tape.write_tou(o, path, &p),
            Ok(Ok(Some(Choice::Flat(p)))) => tape.write_flat(o, path, p),
            Ok(Ok(None)) => tape.skip(path),
            Ok(Err(e)) => tape.finish(o, path, Err(e)),
        },
        Mode::Zip(z) => match tape.from_zip(z.as_str(), x.eia_month.as_str()) {
            Err(q) => Err(q),
            Ok(a) => tape.finish(o, path, a),
        },
        Mode::FromIp => match tape.from_ip(x, false) {
            Err(q) => Err(q),
            Ok(a) => tape.finish(o, path, a),
        },
        Mode::Rate(t) => match tape.rate_given(t.as_str()) {
            Err(q) => Err(q),
            Ok(a) => tape.finish(o, path, a),
        },
    }
}

// ------------------------------------------------------------------------- laws

/// A part of the conversation that only asks: it reads on in the answers, and needs neither the
/// network nor the file system.
spec fn only_asks<R, A>(t: Talk<R>, o: Out<R, A>) -> bool {
    match o {
        Out::Got(u, _) => u.events == t.events && u.at >= t.at,
        Out::Need(u, q) => u.events == t.events && u.at >= t.at && (q is Ask || q is LookupZip
            || q is ParseRate || q is ParseCharge || q is CheckTou),
    }
}

proof fn lemma_rate_asks<R>(t: Talk<R>, n: nat)
    ensures
        only_asks(t, rate_dialog(t, n)),
    decreases n,
{
    if n > 0 {
        if let Out::Got(t1, Some(a)) = ask(t, "Your rate in $ per kWh (e.g. 0.31; 31c also works): "@) {
            match read_rate(t1, a) {
                Out::Got(t2, (Err(e), _)) => lemma_rate_asks(say(t2, e + ".\n"@), (n - 1) as nat),
                Out::Got(t2, (Ok(p), d)) => {
                    if let Out::Got(t3, false) = confirmed(t2, d) {
                        lemma_rate_asks(t3, (n - 1) as nat);
                    }
                },
                _ => {},
            }
        }
    }
}

proof fn lemma_zip_asks<R>(t: Talk<R>, x: Texts, n: nat)
    ensures
        only_asks(t, zip_dialog(t, x, n)),
    decreases n,
{
    let out_of_tries = say(
        t,
        "No ZIP code matched after 3 tries - type the rate from your bill instead.\n"@,
    );
    if n == 0 {
        lemma_rate_asks(out_of_tries, 3);
    } else {
        if let Out::Got(t1, Some(a)) = ask(t, "Your 5-digit ZIP code: "@) {
            if let Some(Event::Zip(z)) = next(t1) {
                match z {
                    ZipLookup::State { code, place, cents, price } => {
                        let q = "ZIP "@ + trimmed(a) + " is in "@ + place@ + ": average home rate "@
                            + cents@ + "c/kWh (U.S. EIA, "@ + x.eia_month@ + ", published "@
                            + x.eia_released@ + ").\nUse it? [Y/n] "@;
                        if let Out::Got(t2, false) = yes_or_no(used(t1), q, true) {
                            lemma_rate_asks(t2, 3);
                        }
                    },
                    ZipLookup::NotCovered { place } => {
                        lemma_rate_asks(
                            say(
                                used(t1),
                                zip_trouble(z) + ". Type the rate from your bill instead.\n"@,
                            ),
                            3,
                        );
                    },
                    _ => {
                        lemma_zip_asks(
                            say(used(t1), zip_trouble(z) + ". Try again.\n"@),
                            x,
                            (n - 1) as nat,
                        );
                    },
                }
            }
        }
    }
}

proof fn lemma_price_asks<R>(t: Talk<R>, q: Seq<char>, default: Option<(R, Seq<char>)>, n: nat)
    ensures
        only_asks(t, price_dialog(t, q, default, n)),
    decreases n,
{
    if n > 0 {
        let prompt = price_prompt(
            q,
            match default {
                Some(d) => Some(d.1),
                None => None,
            },
        );
        if let Out::Got(t1, Some(a)) = ask(t, prompt) {
            match read_rate(t1, a) {
                Out::Got(t2, (Err(e), _)) => lemma_price_asks(
                    say(t2, e + ".\n"@),
                    q,
                    default,
                    (n - 1) as nat,
                ),
                Out::Got(t2, (Ok(p), d)) => {
                    if let Out::Got(t3, false) = confirmed(t2, d) {
                        lemma_price_asks(t3, q, default, (n - 1) as nat);
                    }
                },
                _ => {},
            }
        }
    }
}

proof fn lemma_number_asks<R>(t: Talk<R>, q: Seq<char>, default: u32, lo: u32, hi: u32, n: nat)
    ensures
        only_asks(t, number_dialog(t, q, default, lo, hi, n)),
    decreases n,
{
    if n > 0 {
        if let Out::Got(t1, Some(a)) = ask(t, q + " ["@ + dec(default as nat) + "] "@) {
            lemma_number_asks(
                say(
                    t1,
                    "'"@ + trimmed(a) + "' is not a whole number from "@ + dec(lo as nat) + " to "@
                        + dec(hi as nat) + ".\n"@,
                ),
                q,
                default,
                lo,
                hi,
                (n - 1) as nat,
            );
        }
    }
}

proof fn lemma_charge_asks<R>(t: Talk<R>, zero: R, n: nat)
    ensures
        only_asks(t, charge_dialog(t, zero, n)),
    decreases n,
{
    if n > 0 {
        if let Out::Got(t1, Some(a)) = ask(
            t,
            "Fixed daily charge, $ per day (0 if none or not sure) [0] "@,
        ) {
            let c = without_dollars(trimmed(a));
            lemma_charge_asks(
                say(used(t1), "'"@ + c + "' is not a dollar amount per day (e.g. 0.25).\n"@),
                zero,
                (n - 1) as nat,
            );
        }
    }
}

proof fn lemma_peak_asks<R>(t: Talk<R>)
    ensures
        only_asks(t, peak_dialog(t)),
{
    let q0 = "On-peak price, $ per kWh (e.g. 0.52)"@;
    let q1 = "On-peak starts at (local hour, 0-23)"@;
    let q2 = "On-peak ends at (local hour, 1-24)"@;
    reveal(peak_dialog);
    lemma_price_asks(t, q0, None, 3);
    if let Out::Got(t1, Ok(Some(_))) = price_dialog(t, q0, None, 3) {
        lemma_number_asks(t1, q1, 16, 0, 23, 3);
        if let Out::Got(t2, Ok(Some(_))) = number_dialog(t1, q1, 16, 0, 23, 3) {
            lemma_number_asks(t2, q2, 21, 1, 24, 3);
        }
    }
}

proof fn lemma_seasons_ask<R>(t: Talk<R>, on: (R, Seq<char>))
    ensures
        only_asks(t, seasons_dialog(t, on)),
{
    let q = "Does the plan change between summer and winter? [y/N] "@;
    let q1 = "Summer starts in month (1-12)"@;
    let q2 = "Winter starts in month (1-12)"@;
    let q3 = "Winter on-peak price, $ per kWh (the same hours, EVERY day in winter - weekends too)"@;
    reveal(seasons_dialog);
    if let Out::Got(t0, true) = yes_or_no(t, q, false) {
        lemma_number_asks(t0, q1, 6, 1, 12, 3);
        if let Out::Got(t1, Ok(Some(_))) = number_dialog(t0, q1, 6, 1, 12, 3) {
            lemma_number_asks(t1, q2, 10, 1, 12, 3);
            if let Out::Got(t2, Ok(Some(_))) = number_dialog(t1, q2, 10, 1, 12, 3) {
                lemma_price_asks(t2, q3, Some(on), 3);
            }
        }
    }
}

proof fn lemma_plan_asks<R>(t: Talk<R>, zero: R)
    ensures
        only_asks(t, plan_dialog(t, zero)),
{
    let q1 = "Off-peak price, $ per kWh (the other hours)"@;
    let q2 = "Weekend/holiday price in those same hours, $ per kWh"@;
    reveal(plan_dialog);
    lemma_peak_asks(t);
    if let Out::Got(t0, Ok(Some(peak))) = peak_dialog(t) {
        lemma_price_asks(t0, q1, None, 3);
        if let Out::Got(t1, Ok(Some(_))) = price_dialog(t0, q1, None, 3) {
            lemma_price_asks(t1, q2, Some(peak.0), 3);
            if let Out::Got(t2, Ok(Some(_))) = price_dialog(t1, q2, Some(peak.0), 3) {
                lemma_seasons_ask(t2, peak.0);
                if let Out::Got(t3, Ok(Some(_))) = seasons_dialog(t2, peak.0) {
                    lemma_charge_asks(t3, zero, 3);
                }
            }
        }
    }
}

proof fn lemma_doubts_keep<R>(t: Talk<R>, doubts: Seq<Seq<char>>)
    ensures
        say_doubts(t, doubts).events == t.events,
        say_doubts(t, doubts).at == t.at,
    decreases doubts.len(),
{
    if doubts.len() > 0 {
        lemma_doubts_keep(t, doubts.drop_last());
    }
}

proof fn lemma_rounds_ask<R>(t: Talk<R>, zero: R, n: nat)
    ensures
        only_asks(t, tou_rounds(t, zero, n)),
    decreases n,
{
    if n > 0 {
        lemma_plan_asks(t, zero);
        if let Out::Got(t1, Ok(Some(_))) = plan_dialog(t, zero) {
            match next(t1) {
                Some(Event::Checked(Err(e))) => {
                    lemma_rounds_ask(
                        say(used(t1), "That plan cannot be used: "@ + e@ + ". Once more:\n"@),
                        zero,
                        (n - 1) as nat,
                    );
                },
                Some(Event::Checked(Ok(doubts))) => {
                    let t2 = say_doubts(used(t1), views(doubts@));
                    lemma_doubts_keep(used(t1), views(doubts@));
                    if let Out::Got(t3, false) = yes_or_no(
                        t2,
                        "Use these numbers anyway? [y/N] "@,
                        false,
                    ) {
                        lemma_rounds_ask(say(t3, "Once more:\n"@), zero, (n - 1) as nat);
                    }
                },
                _ => {},
            }
        }
    }
}

/// Whether the request to the location service stands right behind the person's consent, and behind
/// answers of the person alone.
spec fn is_consented<R>(u: Talk<R>) -> bool {
    &&& 0 < u.at <= u.events.len()
    &&& u.events[u.at - 1] matches Event::Answer(a) && means_yes(opt_view(a), false)
    &&& forall|i: int| 0 <= i < u.at ==> #[trigger] u.events[i] is Answer
}

/// What a dialog with a person needs: answers, tables, and the network only with consent.
spec fn asks_first<R, A>(t: Talk<R>, o: Out<R, A>) -> bool {
    match o {
        Out::Got(u, _) => u.events == t.events && u.at >= t.at,
        Out::Need(u, q) => u.events == t.events && u.at >= t.at && (q is Ask || q is LookupZip
            || q is ParseRate || q is ParseCharge || q is CheckTou || (q is Locate && is_consented(u))),
    }
}

spec fn all_answers<R>(t: Talk<R>) -> bool {
    &&& 0 <= t.at <= t.events.len()
    &&& forall|i: int| 0 <= i < t.at ==> #[trigger] t.events[i] is Answer
}

proof fn lemma_lookup_asks<R>(t: Talk<R>, x: Texts, interactive: bool)
    requires
        interactive ==> is_consented(t),
    ensures
        match ip_lookup(t, x, interactive) {
            Out::Need(u, RequestView::Locate) => u == t,
            o => only_asks(t, o),
        },
{
    match next(t) {
        Some(Event::Location(Err(e))) => {
            let why = "the location lookup failed ("@ + e@ + ")"@;
            lemma_zip_asks(say(used(t), why + ". Enter your ZIP code instead:\n"@), x, 3);
        },
        Some(Event::Location(Ok(l))) => match l {
            IpLocation::UsNotCovered { region } => {
                let why = x.ip_name@ + " places you in '"@ + region@
                    + "', which EIA's state table does not cover"@;
                lemma_zip_asks(say(used(t), why + ". Enter your ZIP code instead:\n"@), x, 3);
            },
            IpLocation::NotUs { country } => {
                let why = x.ip_name@ + " places you outside the US ("@ + country@
                    + "); the built-in table covers US states only"@;
                lemma_rate_asks(say(used(t), why + ". Type the rate from your bill:\n"@), 3);
            },
            IpLocation::UsState { code, place, cents, price, city } => {
                let q = x.ip_name@ + " places you in "@ + place_text(city@, place@)
                    + ": average home rate "@ + cents@ + "c/kWh (U.S. EIA, "@ + x.eia_month@
                    + ").\nUse it? [Y/n] "@;
                if let Out::Got(t1, false) = yes_or_no(used(t), q, true) {
                    lemma_zip_asks(t1, x, 3);
                }
            },
        },
        _ => {},
    }
}

proof fn lemma_ip_asks<R>(t: Talk<R>, x: Texts)
    requires
        all_answers(t),
    ensures
        asks_first(t, ip_dialog(t, x, true)),
{
    let t0 = say(
        say(
            t,
            "This sends ONE request to "@ + x.ip_url@ + ". "@ + x.ip_name@
                + " sees your public IP address and answers with\n"@,
        ),
        "an approximate location (city, state, country). Nothing else is sent, and lss keeps only the state.\n"@,
    );
    match yes_or_no(t0, "Contact "@ + x.ip_name@ + " now? [y/N] "@, false) {
        Out::Got(t1, true) => {
            lemma_lookup_asks(t1, x, true);
        },
        Out::Got(t1, false) => {
            lemma_zip_asks(
                say(t1, "Not contacted. Your ZIP code works without the network:\n"@),
                x,
                3,
            );
        },
        _ => {},
    }
}

proof fn lemma_menu_asks<R>(t: Talk<R>, x: Texts, zero: R, n: nat)
    requires
        all_answers(t),
    ensures
        asks_first(t, menu_rounds(t, x, zero, n)),
    decreases n,
{
    if n > 0 {
        if let Out::Got(t1, Some(a)) = ask(t, "Choose 1-5 [1] "@) {
            let c = trimmed(a);
            lemma_zip_asks(t1, x, 3);
            lemma_ip_asks(t1, x);
            lemma_rate_asks(t1, 3);
            let t2 = say(
                say(
                    say(
                        t1,
                        "\nA time-of-use plan: one peak window on weekdays, its own price on weekends and holidays in\n"@,
                    ),
                    "the same hours, off-peak the rest - optionally different in summer and winter. Take the numbers\n"@,
                ),
                "from your bill or your utility's tariff page. (More periods, holidays: edit rates.toml afterwards.)\n"@,
            );
            lemma_rounds_ask(t2, zero, 3);
            lemma_menu_asks(
                say(t1, "'"@ + c + "' is not one of 1-5.\n"@),
                x,
                zero,
                (n - 1) as nat,
            );
        }
    }
}

/// The menu reads on in the answers.
pub(crate) proof fn lemma_menu_reads_on<R>(t: Talk<R>, x: Texts, zero: R, n: nat)
    ensures
        menu_rounds(t, x, zero, n) matches Out::Got(u, Ok(Some(ChoiceView::Tou(_)))) ==> u.events == t.events
            && u.at >= t.at,
    decreases n,
{
    if n > 0 {
        if let Out::Got(t1, Some(a)) = ask(t, "Choose 1-5 [1] "@) {
            let c = trimmed(a);
            let t2 = say(
                say(
                    say(
                        t1,
                        "\nA time-of-use plan: one peak window on weekdays, its own price on weekends and holidays in\n"@,
                    ),
                    "the same hours, off-peak the rest - optionally different in summer and winter. Take the numbers\n"@,
                ),
                "from your bill or your utility's tariff page. (More periods, holidays: edit rates.toml afterwards.)\n"@,
            );
            lemma_rounds_ask(t2, zero, 3);
            lemma_menu_reads_on(
                say(t1, "'"@ + c + "' is not one of 1-5.\n"@),
                x,
                zero,
                (n - 1) as nat,
            );
        }
    }
}

/// The menu asks the person, the tables and the location service, and nothing else.
pub(crate) proof fn lemma_menu_only_asks<R>(t: Talk<R>, x: Texts, zero: R, n: nat)
    ensures
        menu_rounds(t, x, zero, n) matches Out::Need(_, q) ==> q is Ask || q is LookupZip || q is ParseRate
            || q is ParseCharge || q is CheckTou || q is Locate,
    decreases n,
{
    if n > 0 {
        if let Out::Got(t1, Some(a)) = ask(t, "Choose 1-5 [1] "@) {
            let c = trimmed(a);
            lemma_zip_asks(t1, x, 3);
            lemma_ip_only_asks(t1, x);
            lemma_rate_asks(t1, 3);
            let t2 = say(
                say(
                    say(
                        t1,
                        "\nA time-of-use plan: one peak window on weekdays, its own price on weekends and holidays in\n"@,
                    ),
                    "the same hours, off-peak the rest - optionally different in summer and winter. Take the numbers\n"@,
                ),
                "from your bill or your utility's tariff page. (More periods, holidays: edit rates.toml afterwards.)\n"@,
            );
            lemma_rounds_ask(t2, zero, 3);
            lemma_menu_only_asks(
                say(t1, "'"@ + c + "' is not one of 1-5.\n"@),
                x,
                zero,
                (n - 1) as nat,
            );
        }
    }
}

proof fn lemma_ip_only_asks<R>(t: Talk<R>, x: Texts)
    ensures
        ip_dialog(t, x, true) matches Out::Need(_, q) ==> q is Ask || q is LookupZip || q is ParseRate
            || q is Locate,
{
    let t0 = say(
        say(
            t,
            "This sends ONE request to "@ + x.ip_url@ + ". "@ + x.ip_name@
                + " sees your public IP address and answers with\n"@,
        ),
        "an approximate location (city, state, country). Nothing else is sent, and lss keeps only the state.\n"@,
    );
    match yes_or_no(t0, "Contact "@ + x.ip_name@ + " now? [y/N] "@, false) {
        Out::Got(t1, true) => {
            match next(t1) {
                Some(Event::Location(Err(e))) => {
                    let why = "the location lookup failed ("@ + e@ + ")"@;
                    lemma_zip_needs(say(used(t1), why + ". Enter your ZIP code instead:\n"@), x, 3);
                },
                Some(Event::Location(Ok(l))) => match l {
                    IpLocation::UsNotCovered { region } => {
                        let why = x.ip_name@ + " places you in '"@ + region@
                            + "', which EIA's state table does not cover"@;
                        lemma_zip_needs(say(used(t1), why + ". Enter your ZIP code instead:\n"@), x, 3);
                    },
                    IpLocation::NotUs { country } => {
                        let why = x.ip_name@ + " places you outside the US ("@ + country@
                            + "); the built-in table covers US states only"@;
                        lemma_rate_needs(say(used(t1), why + ". Type the rate from your bill:\n"@), 3);
                    },
                    IpLocation::UsState { code, place, cents, price, city } => {
                        let q = x.ip_name@ + " places you in "@ + place_text(city@, place@)
                            + ": average home rate "@ + cents@ + "c/kWh (U.S. EIA, "@ + x.eia_month@
                            + ").\nUse it? [Y/n] "@;
                        if let Out::Got(t2, false) = yes_or_no(used(t1), q, true) {
                            lemma_zip_needs(t2, x, 3);
                        }
                    },
                },
                _ => {},
            }
        },
        Out::Got(t1, false) => {
            lemma_zip_needs(
                say(t1, "Not contacted. Your ZIP code works without the network:\n"@),
                x,
                3,
            );
        },
        _ => {},
    }
}

proof fn lemma_rate_needs<R>(t: Talk<R>, n: nat)
    ensures
        rate_dialog(t, n) matches Out::Need(_, q) ==> q is Ask || q is ParseRate,
    decreases n,
{
    if n > 0 {
        if let Out::Got(t1, Some(a)) = ask(t, "Your rate in $ per kWh (e.g. 0.31; 31c also works): "@) {
            match read_rate(t1, a) {
                Out::Got(t2, (Err(e), _)) => lemma_rate_needs(say(t2, e + ".\n"@), (n - 1) as nat),
                Out::Got(t2, (Ok(p), d)) => {
                    if let Out::Got(t3, false) = confirmed(t2, d) {
                        lemma_rate_needs(t3, (n - 1) as nat);
                    }
                },
                _ => {},
            }
        }
    }
}

proof fn lemma_zip_needs<R>(t: Talk<R>, x: Texts, n: nat)
    ensures
        zip_dialog(t, x, n) matches Out::Need(_, q) ==> q is Ask || q is LookupZip || q is ParseRate,
    decreases n,
{
    if n == 0 {
        lemma_rate_needs(
            say(
                t,
                "No ZIP code matched after 3 tries - type the rate from your bill instead.\n"@,
            ),
            3,
        );
    } else {
        if let Out::Got(t1, Some(a)) = ask(t, "Your 5-digit ZIP code: "@) {
            if let Some(Event::Zip(z)) = next(t1) {
                match z {
                    ZipLookup::State { code, place, cents, price } => {
                        let q = "ZIP "@ + trimmed(a) + " is in "@ + place@ + ": average home rate "@
                            + cents@ + "c/kWh (U.S. EIA, "@ + x.eia_month@ + ", published "@
                            + x.eia_released@ + ").\nUse it? [Y/n] "@;
                        if let Out::Got(t2, false) = yes_or_no(used(t1), q, true) {
                            lemma_rate_needs(t2, 3);
                        }
                    },
                    ZipLookup::NotCovered { place } => {
                        lemma_rate_needs(
                            say(
                                used(t1),
                                zip_trouble(z) + ". Type the rate from your bill instead.\n"@,
                            ),
                            3,
                        );
                    },
                    _ => {
                        lemma_zip_needs(
                            say(used(t1), zip_trouble(z) + ". Try again.\n"@),
                            x,
                            (n - 1) as nat,
                        );
                    },
                }
            }
        }
    }
}

/// Whether the file may be written: nothing is there, or it is to be replaced by force, or a person
/// was asked and said yes.
pub open spec fn may_write<R>(events: Seq<Event<R>>, o: OptsView, i: int) -> bool {
    &&& 0 <= i < events.len()
    &&& match events[i] {
        Event::Existing(None) => true,
        Event::Existing(Some(_)) => o.force || (o.mode is Ask && i + 1 < events.len() && (
        events[i + 1] matches Event::Answer(a) && means_yes(opt_view(a), false))),
        _ => false,
    }
}

/// Nothing is written with `--dry-run` or `--skip`. Where something is written, the place was looked
/// at before, and an existing file is replaced only by force or with the person's yes: whatever the
/// answers, the tables and the network say.
pub proof fn law_existing_file_is_kept<R>(
    events: Seq<Event<R>>,
    o: OptsView,
    path: Seq<char>,
    x: Texts,
    zero: R,
)
    ensures
        ({
            let t = Talk { events, at: 0, said: Seq::empty() };
            wizard(t, o, path, x, zero) matches Out::Need(_, RequestView::Write(_)) ==> {
                &&& !o.dry_run
                &&& !(o.mode is Skip)
                &&& exists|i: int| #[trigger] may_write(events, o, i)
            }
        }),
{
    let t = Talk { events, at: 0, said: Seq::empty() };
    match o.mode {
        ModeView::Skip => {},
        ModeView::Ask => {
            let t0 = menu_said(t, x);
            lemma_menu_asks(t0, x, zero, 5);
            match menu_rounds(t0, x, zero, 5) {
                Out::Got(t1, Ok(Some(ChoiceView::Tou(p)))) => {
                    assert(may_write(events, o, t1.at + 1) || !(tou_written(t1, o, path, p) matches
                        Out::Need(_, RequestView::Write(_))));
                },
                Out::Got(t1, Ok(Some(ChoiceView::Flat(p)))) => {
                    assert(may_write(events, o, t1.at + 1) || !(flat_written(t1, o, path, p) matches
                        Out::Need(_, RequestView::Write(_))));
                },
                _ => {},
            }
        },
        ModeView::Zip(z) => {
            if let Out::Got(t1, Ok(Some(p))) = zip_flag(t, z, x.eia_month@) {
                assert(may_write(events, o, t1.at + 1) || !(flat_written(t1, o, path, p) matches
                    Out::Need(_, RequestView::Write(_))));
            }
        },
        ModeView::FromIp => {
            lemma_lookup_asks(t, x, false);
            if let Out::Got(t1, Ok(Some(p))) = ip_dialog(t, x, false) {
                assert(may_write(events, o, t1.at + 1) || !(flat_written(t1, o, path, p) matches
                    Out::Need(_, RequestView::Write(_))));
            }
        },
        ModeView::Rate(r) => {
            if let Out::Got(t1, Ok(Some(p))) = rate_flag(t, r) {
                assert(may_write(events, o, t1.at + 1) || !(flat_written(t1, o, path, p) matches
                    Out::Need(_, RequestView::Write(_))));
            }
        },
    }
}

/// The location service is contacted only with `--from-ip`, and then first of all, or from the menu,
/// and then right behind the person's yes to being asked. It is contacted once at most: nothing but
/// the person's answers stands before it.
pub proof fn law_network_needs_consent<R>(
    events: Seq<Event<R>>,
    o: OptsView,
    path: Seq<char>,
    x: Texts,
    zero: R,
)
    ensures
        ({
            let t = Talk { events, at: 0, said: Seq::empty() };
            wizard(t, o, path, x, zero) matches Out::Need(u, RequestView::Locate) ==> {
                ||| o.mode is FromIp && u.at == 0
                ||| {
                    &&& o.mode is Ask
                    &&& 0 < u.at <= events.len()
                    &&& events[u.at - 1] matches Event::Answer(a) && means_yes(opt_view(a), false)
                    &&& forall|i: int| 0 <= i < u.at ==> #[trigger] events[i] is Answer
                }
            }
        }),
{
    let t = Talk { events, at: 0, said: Seq::empty() };
    match o.mode {
        ModeView::Ask => {
            lemma_menu_asks(menu_said(t, x), x, zero, 5);
        },
        ModeView::FromIp => {
            lemma_lookup_asks(t, x, false);
        },
        _ => {},
    }
}

// ------------------------------------------------------------ what is there now

/// What is found at the path of the file.
pub enum Found {
    Nothing,
    Directory,
    /// it may not be read
    Denied,
    /// it cannot be read: why
    Unreadable(String),
    /// it was read: the name of its table, where it is one
    Read(Option<String>),
}

/// A short description of what is at the path. Whatever is there counts, also where it cannot be
/// read.
pub fn describe_existing(found: &Found) -> (r: Option<String>)
    ensures
        opt_view(r) == (match *found {
            Found::Nothing => None,
            Found::Directory => Some("a directory, not a rate table"@),
            Found::Denied => Some("a file you cannot read (permission denied)"@),
            Found::Unreadable(e) => Some("a file that cannot be read: "@ + e@),
            Found::Read(Some(name)) => Some("\""@ + name@ + "\""@),
            Found::Read(None) => Some("not a readable rate table"@),
        }),
{
    match found {
        Found::Nothing => None,
        Found::Directory => Some("a directory, not a rate table".to_owned()),
        Found::Denied => Some("a file you cannot read (permission denied)".to_owned()),
        Found::Unreadable(e) => {
            let mut s = "a file that cannot be read: ".to_owned();
            s.append(e.as_str());
            Some(s)
        },
        Found::Read(Some(name)) => {
            let mut s = "\"".to_owned();
            s.append(name.as_str());
            s.append("\"");
            Some(s)
        },
        Found::Read(None) => Some("not a readable rate table".to_owned()),
    }
}

} // verus!
