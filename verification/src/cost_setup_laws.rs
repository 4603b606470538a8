//! What the cost wizard's conversations come to: each price and each number of what it renders is the one
//! that was answered to its question.

use crate::cost_setup_run::{
    ask, charge_dialog, confirmed, default_opts, delivered, flat_line, flat_written, ip_dialog, ip_lookup, means_yes,
    menu_rounds, menu_said, next, number_dialog, peak_dialog, picked, place_text, plan_dialog, price_dialog,
    price_prompt, price_view, rate_dialog, rate_flag, read_args, read_rate, say, say_doubts,
    seasons_dialog, tou_line, tou_rounds, tou_written, used, without_dollars, wizard, yes_or_no, zip_dialog, zip_flag,
    zip_trouble, ChoiceView, Event, IpLocation, ModeView, OptsView, OriginView, Out, PlanView,
    RequestView, SeasonsView, Talk, Texts, ZipLookup,
};
use crate::text::{dec, opt_view, parse_int, starts, trimmed, views};
use vstd::prelude::*;
use vstd::string::*;

verus! {

// ---------------------------------------------------------- what an answer gives

/// What a typed text is as a whole number from `lo` to `hi`: nothing typed is the default.
pub open spec fn number_typed(a: Seq<char>, default: u32, lo: u32, hi: u32) -> Option<u32> {
    let s = trimmed(a);
    if s.len() == 0 {
        Some(default)
    } else {
        match parse_int(s, false) {
            Some(n) if lo <= n <= hi => Some(n as u32),
            _ => None,
        }
    }
}

/// What a person typed as answer `i`, where they did.
pub open spec fn typed<R>(events: Seq<Event<R>>, i: int) -> Option<Seq<char>> {
    match events[i] {
        Event::Answer(a) => opt_view(a),
        _ => None,
    }
}

/// Whether answers `from` to before `to` give the number `v`: the last of them is it, and none before
/// it is a number that can be used.
#[verifier::opaque]
pub open spec fn number_given<R>(
    events: Seq<Event<R>>,
    from: int,
    to: int,
    default: u32,
    lo: u32,
    hi: u32,
    v: u32,
) -> bool {
    &&& 0 <= from < to <= events.len()
    &&& typed(events, to - 1) is Some
    &&& number_typed(typed(events, to - 1)->0, default, lo, hi) == Some(v)
    &&& forall|i: int|
        from <= i < to - 1 ==> typed(events, i) is Some && number_typed(
            #[trigger] typed(events, i)->0,
            default,
            lo,
            hi,
        ) is None
}

/// Whether answers `from` to before `to` give the price `v`: it is the default, where nothing was typed
/// last; or what was typed last was read as it, with no doubt; or with one, and the person said yes.
#[verifier::opaque]
pub open spec fn price_given<R>(
    events: Seq<Event<R>>,
    from: int,
    to: int,
    default: Option<(R, Seq<char>)>,
    v: (R, Seq<char>),
) -> bool {
    &&& 0 <= from < to <= events.len()
    &&& {
        ||| {
            &&& default == Some(v)
            &&& typed(events, to - 1) is Some
            &&& trimmed(typed(events, to - 1)->0).len() == 0
        }
        ||| {
            &&& from <= to - 2
            &&& typed(events, to - 2) is Some
            &&& events[to - 1] matches Event::Rate(Ok(p), None) && price_view(p) == v
        }
        ||| {
            &&& from <= to - 3
            &&& typed(events, to - 3) is Some
            &&& events[to - 2] matches Event::Rate(Ok(p), Some(_)) && price_view(p) == v
            &&& typed(events, to - 1) is Some
            &&& said_yes(typed(events, to - 1)->0)
        }
    }
}

/// Whether answers `from` to before `to` give the daily charge `v`: it is none, where no amount was
/// typed last, or what the amount was read as.
#[verifier::opaque]
pub open spec fn charge_given<R>(
    events: Seq<Event<R>>,
    from: int,
    to: int,
    zero: R,
    v: R,
) -> bool {
    &&& 0 <= from < to <= events.len()
    &&& {
        ||| {
            &&& v == zero
            &&& typed(events, to - 1) is Some
            &&& forall|i: int|
                0 <= i < trimmed(typed(events, to - 1)->0).len() ==> #[trigger] trimmed(
                    typed(events, to - 1)->0,
                )[i] == '$'
        }
        ||| {
            &&& from <= to - 2
            &&& typed(events, to - 2) is Some
            &&& events[to - 1] == Event::<R>::Charge(Some(v))
        }
    }
}

/// Whether a text is a yes: it starts with a `y`, small or capital.
pub open spec fn said_yes(a: Seq<char>) -> bool {
    trimmed(a).len() > 0 && (trimmed(a)[0] == 'y' || trimmed(a)[0] == 'Y')
}

/// A yes-or-no question is a yes where the answer starts with a `y`, or where nothing was typed and yes
/// is the default; the end of the input is a no.
pub proof fn law_yes_starts_with_y(a: Option<Seq<char>>, default: bool)
    ensures
        means_yes(a, default) <==> a is Some && (said_yes(a->0) || (trimmed(a->0).len() == 0
            && default)),
{
    if let Some(s) = a {
        let t = trimmed(s);
        if t.len() > 0 {
            assert(crate::text::lowered(t)[0] == crate::text::small(t[0]));
        }
    }
}

proof fn lemma_only_dollars(s: Seq<char>)
    ensures
        without_dollars(s).len() == 0 ==> forall|i: int| 0 <= i < s.len() ==> #[trigger] s[i] == '$',
    decreases s.len(),
{
    if s.len() > 0 && s[0] == '$' {
        lemma_only_dollars(s.drop_first());
        if without_dollars(s).len() == 0 {
            assert forall|i: int| 0 <= i < s.len() implies #[trigger] s[i] == '$' by {
                if i > 0 {
                    assert(s.drop_first()[i - 1] == s[i]);
                }
            }
        }
    }
}

// ------------------------------------------------------- conversations that end early

/// A conversation with only the first `k` of its answers.
pub open spec fn cut<R>(t: Talk<R>, k: int) -> Talk<R> {
    Talk { events: t.events.take(k), ..t }
}

proof fn lemma_yes_no_settled<R>(t: Talk<R>, q: Seq<char>, default: bool)
    requires
        0 <= t.at,
    ensures
        yes_or_no(t, q, default) matches Out::Got(u, b) ==> {
            &&& u.events == t.events && u.said == t.said
            &&& u.at == t.at + 1 <= t.events.len()
            &&& t.events[t.at] matches Event::Answer(a) && b == means_yes(opt_view(a), default)
            &&& forall|k: int|
                u.at <= k <= t.events.len() ==> #[trigger] yes_or_no(cut(t, k), q, default) == Out::Got(
                    cut(u, k),
                    b,
                )
        },
{
    assert forall|k: int| t.at + 1 <= k <= t.events.len() implies #[trigger] next(cut(t, k)) == next(t) by {
        assert(t.events.take(k)[t.at] == t.events[t.at]);
    }
    if let Out::Got(u, b) = yes_or_no(t, q, default) {
        assert forall|k: int| u.at <= k <= t.events.len() implies #[trigger] yes_or_no(
            cut(t, k),
            q,
            default,
        ) == Out::Got(cut(u, k), b) by {
            assert(next(cut(t, k)) == next(t));
        }
    }
}

proof fn lemma_number_given<R>(t: Talk<R>, q: Seq<char>, default: u32, lo: u32, hi: u32, n: nat)
    requires
        0 <= t.at,
    ensures
        number_dialog(t, q, default, lo, hi, n) matches Out::Got(u, Ok(Some(v))) ==> {
            &&& u.events == t.events
            &&& t.at < u.at <= t.events.len()
            &&& number_given(t.events, t.at, u.at, default, lo, hi, v)
            &&& forall|k: int|
                u.at <= k <= t.events.len() ==> #[trigger] number_dialog(
                    cut(t, k),
                    q,
                    default,
                    lo,
                    hi,
                    n,
                ) == Out::Got(cut(u, k), Ok::<Option<u32>, (int, Seq<char>)>(Some(v)))
        },
    decreases n,
{
    reveal(number_given);
    if n > 0 {
        if let Out::Got(t1, Some(a)) = ask(t, q + " ["@ + dec(default as nat) + "] "@) {
            let t2 = say(
                t1,
                "'"@ + trimmed(a) + "' is not a whole number from "@ + dec(lo as nat) + " to "@ + dec(
                    hi as nat,
                ) + ".\n"@,
            );
            lemma_number_given(t2, q, default, lo, hi, (n - 1) as nat);
            assert(typed(t.events, t.at) == Some(a));
            if let Out::Got(u, Ok(Some(v))) = number_dialog(t, q, default, lo, hi, n) {
                if number_typed(a, default, lo, hi) is None {
                    assert(number_dialog(t2, q, default, lo, hi, (n - 1) as nat) == Out::Got(
                        u,
                        Ok::<Option<u32>, (int, Seq<char>)>(Some(v)),
                    ));
                    assert forall|i: int| t.at <= i < u.at - 1 implies typed(t.events, i) is Some
                        && number_typed(#[trigger] typed(t.events, i)->0, default, lo, hi) is None by {
                        if i > t.at {
                            assert(typed(t2.events, i) is Some);
                        }
                    }
                }
                assert forall|k: int| u.at <= k <= t.events.len() implies #[trigger] number_dialog(
                    cut(t, k),
                    q,
                    default,
                    lo,
                    hi,
                    n,
                ) == Out::Got(cut(u, k), Ok::<Option<u32>, (int, Seq<char>)>(Some(v))) by {
                    assert(t.events.take(k)[t.at] == t.events[t.at]);
                    assert(next(cut(t, k)) == next(t));
                    assert(cut(t2, k) == say(used(cut(t, k)), t2.said.last()));
                    if number_typed(a, default, lo, hi) is None {
                        assert(number_dialog(cut(t2, k), q, default, lo, hi, (n - 1) as nat) == Out::Got(
                            cut(u, k),
                            Ok::<Option<u32>, (int, Seq<char>)>(Some(v)),
                        ));
                    }
                }
            }
        }
    }
}

proof fn lemma_confirmed_settled<R>(t: Talk<R>, doubt: Option<Seq<char>>)
    requires
        0 <= t.at,
    ensures
        confirmed(t, doubt) matches Out::Got(u, b) ==> {
            &&& u.events == t.events
            &&& doubt is None ==> u.at == t.at && b
            &&& doubt is Some ==> u.at == t.at + 1 <= t.events.len() && (b ==> typed(t.events, t.at) is Some
                && said_yes(typed(t.events, t.at)->0))
            &&& forall|k: int|
                u.at <= k <= t.events.len() ==> #[trigger] confirmed(cut(t, k), doubt) == Out::Got(
                    cut(u, k),
                    b,
                )
        },
{
    if let Some(d) = doubt {
        let t1 = say(t, "Are you sure? "@ + d + ".\n"@);
        lemma_yes_no_settled(t1, "Use it anyway? [y/N] "@, false);
        if let Out::Got(u, b) = confirmed(t, doubt) {
            if let Event::Answer(a) = t.events[t.at] {
                law_yes_starts_with_y(opt_view(a), false);
            }
            assert forall|k: int| u.at <= k <= t.events.len() implies #[trigger] confirmed(
                cut(t, k),
                doubt,
            ) == Out::Got(cut(u, k), b) by {
                assert(cut(t1, k) == say(cut(t, k), "Are you sure? "@ + d + ".\n"@));
                assert(yes_or_no(cut(t1, k), "Use it anyway? [y/N] "@, false) == Out::Got(cut(u, k), b));
            }
        }
    }
}

spec fn as_default<R>(default: Option<(R, Seq<char>)>) -> Option<Seq<char>> {
    match default {
        Some(d) => Some(d.1),
        None => None,
    }
}

proof fn lemma_price_given<R>(t: Talk<R>, q: Seq<char>, default: Option<(R, Seq<char>)>, n: nat)
    requires
        0 <= t.at,
    ensures
        price_dialog(t, q, default, n) matches Out::Got(u, Ok(Some(v))) ==> {
            &&& u.events == t.events
            &&& t.at < u.at <= t.events.len()
            &&& price_given(t.events, t.at, u.at, default, v)
            &&& forall|k: int|
                u.at <= k <= t.events.len() ==> #[trigger] price_dialog(cut(t, k), q, default, n)
                    == Out::Got(cut(u, k), Ok::<Option<(R, Seq<char>)>, (int, Seq<char>)>(Some(v)))
        },
    decreases n,
{
    reveal(price_given);
    if n > 0 {
        if let Out::Got(t1, Some(a)) = ask(t, price_prompt(q, as_default(default))) {
            assert(typed(t.events, t.at) == Some(a));
            if let Out::Got(u, Ok(Some(v))) = price_dialog(t, q, default, n) {
                if trimmed(a).len() == 0 && default is Some {
                    assert forall|k: int| u.at <= k <= t.events.len() implies #[trigger] price_dialog(
                        cut(t, k),
                        q,
                        default,
                        n,
                    ) == Out::Got(
                        cut(u, k),
                        Ok::<Option<(R, Seq<char>)>, (int, Seq<char>)>(Some(v)),
                    ) by {
                        assert(t.events.take(k)[t.at] == t.events[t.at]);
                        assert(next(cut(t, k)) == next(t));
                    }
                } else {
                    match read_rate(t1, a) {
                        Out::Got(t2, (Err(e), d)) => {
                            let t3 = say(t2, e + ".\n"@);
                            lemma_price_given(t3, q, default, (n - 1) as nat);
                            assert forall|k: int| u.at <= k <= t.events.len() implies #[trigger] price_dialog(
                                cut(t, k),
                                q,
                                default,
                                n,
                            ) == Out::Got(
                                cut(u, k),
                                Ok::<Option<(R, Seq<char>)>, (int, Seq<char>)>(Some(v)),
                            ) by {
                                assert(t.events.take(k)[t.at] == t.events[t.at]);
                                assert(t.events.take(k)[t1.at] == t.events[t1.at]);
                                assert(next(cut(t, k)) == next(t));
                                assert(next(cut(t1, k)) == next(t1));
                                assert(cut(t1, k) == used(cut(t, k)));
                                assert(cut(t3, k) == say(cut(t2, k), e + ".\n"@));
                                assert(read_rate(cut(t1, k), a) == Out::Got(
                                    cut(t2, k),
                                    (Err::<(R, Seq<char>), Seq<char>>(e), d),
                                ));
                                assert(price_dialog(cut(t3, k), q, default, (n - 1) as nat) == Out::Got(
                                    cut(u, k),
                                    Ok::<Option<(R, Seq<char>)>, (int, Seq<char>)>(Some(v)),
                                ));
                            }
                        },
                        Out::Got(t2, (Ok(p), d)) => {
                            lemma_confirmed_settled(t2, d);
                            if let Out::Got(t3, b) = confirmed(t2, d) {
                                if !b {
                                    lemma_price_given(t3, q, default, (n - 1) as nat);
                                }
                                assert forall|k: int|
                                    u.at <= k <= t.events.len() implies #[trigger] price_dialog(
                                    cut(t, k),
                                    q,
                                    default,
                                    n,
                                ) == Out::Got(
                                    cut(u, k),
                                    Ok::<Option<(R, Seq<char>)>, (int, Seq<char>)>(Some(v)),
                                ) by {
                                    assert(t.events.take(k)[t.at] == t.events[t.at]);
                                    assert(t.events.take(k)[t1.at] == t.events[t1.at]);
                                    assert(next(cut(t, k)) == next(t));
                                    assert(next(cut(t1, k)) == next(t1));
                                    assert(cut(t1, k) == used(cut(t, k)));
                                    assert(confirmed(cut(t2, k), d) == Out::Got(cut(t3, k), b));
                                    assert(read_rate(cut(t1, k), a) == Out::Got(
                                        cut(t2, k),
                                        (Ok::<(R, Seq<char>), Seq<char>>(p), d),
                                    ));
                                    if !b {
                                        assert(price_dialog(cut(t3, k), q, default, (n - 1) as nat)
                                            == Out::Got(
                                            cut(u, k),
                                            Ok::<Option<(R, Seq<char>)>, (int, Seq<char>)>(Some(v)),
                                        ));
                                    }
                                }
                            }
                        },
                        _ => {},
                    }
                }
            }
        }
    }
}

proof fn lemma_charge_given<R>(t: Talk<R>, zero: R, n: nat)
    requires
        0 <= t.at,
    ensures
        charge_dialog(t, zero, n) matches Out::Got(u, Ok(Some(v))) ==> {
            &&& u.events == t.events
            &&& t.at < u.at <= t.events.len()
            &&& charge_given(t.events, t.at, u.at, zero, v)
            &&& forall|k: int|
                u.at <= k <= t.events.len() ==> #[trigger] charge_dialog(cut(t, k), zero, n) == Out::Got(
                    cut(u, k),
                    Ok::<Option<R>, (int, Seq<char>)>(Some(v)),
                )
        },
    decreases n,
{
    reveal(charge_given);
    if n > 0 {
        if let Out::Got(t1, Some(a)) = ask(
            t,
            "Fixed daily charge, $ per day (0 if none or not sure) [0] "@,
        ) {
            assert(typed(t.events, t.at) == Some(a));
            let c = without_dollars(trimmed(a));
            lemma_only_dollars(trimmed(a));
            let t2 = say(used(t1), "'"@ + c + "' is not a dollar amount per day (e.g. 0.25).\n"@);
            lemma_charge_given(t2, zero, (n - 1) as nat);
            if let Out::Got(u, Ok(Some(v))) = charge_dialog(t, zero, n) {
                assert forall|k: int| u.at <= k <= t.events.len() implies #[trigger] charge_dialog(
                    cut(t, k),
                    zero,
                    n,
                ) == Out::Got(cut(u, k), Ok::<Option<R>, (int, Seq<char>)>(Some(v))) by {
                    assert(t.events.take(k)[t.at] == t.events[t.at]);
                    assert(next(cut(t, k)) == next(t));
                    assert(cut(t1, k) == used(cut(t, k)));
                    if c.len() > 0 {
                        assert(t.events.take(k)[t1.at] == t.events[t1.at]);
                        assert(next(cut(t1, k)) == next(t1));
                        assert(cut(t2, k) == say(
                            used(cut(t1, k)),
                            "'"@ + c + "' is not a dollar amount per day (e.g. 0.25).\n"@,
                        ));
                        if next(t1) == Some(Event::<R>::Charge(None)) {
                            assert(charge_dialog(cut(t2, k), zero, (n - 1) as nat) == Out::Got(
                                cut(u, k),
                                Ok::<Option<R>, (int, Seq<char>)>(Some(v)),
                            ));
                        }
                    }
                }
            }
        }
    }
}

// ------------------------------------------------------------------ a whole plan

/// Whether a plan holds what was answered. `p` are the places where its questions begin, in their order:
/// the on-peak price and its two hours, the off-peak price, the weekend price, whether there are
/// seasons, the two months and the winter price where there are, and the daily charge; and the place
/// behind them.
pub open spec fn plan_given<R>(
    events: Seq<Event<R>>,
    p: Seq<int>,
    zero: R,
    plan: PlanView<R>,
) -> bool {
    &&& p.len() == 11
    &&& price_given(events, p[0], p[1], None, plan.on_peak)
    &&& number_given(events, p[1], p[2], 16, 0, 23, plan.peak_start)
    &&& number_given(events, p[2], p[3], 21, 1, 24, plan.peak_end)
    &&& price_given(events, p[3], p[4], None, plan.off_peak)
    &&& price_given(events, p[4], p[5], Some(plan.on_peak), plan.weekend_peak)
    &&& p[6] == p[5] + 1 <= events.len()
    &&& events[p[5]] is Answer
    &&& match plan.seasons {
        Some(s) => {
            &&& typed(events, p[5]) is Some && said_yes(typed(events, p[5])->0)
            &&& number_given(events, p[6], p[7], 6, 1, 12, s.summer_start)
            &&& number_given(events, p[7], p[8], 10, 1, 12, s.summer_end)
            &&& price_given(events, p[8], p[9], Some(plan.on_peak), s.winter_peak)
        },
        None => {
            &&& typed(events, p[5]) is Some ==> !said_yes(typed(events, p[5])->0)
            &&& p[9] == p[6]
        },
    }
    &&& charge_given(events, p[9], p[10], zero, plan.fixed_usd_per_day)
}

/// The question that a conversation waits with, where it does.
pub open spec fn question<R, A>(o: Out<R, A>) -> Option<Seq<char>> {
    match o {
        Out::Need(_, RequestView::Ask(q)) => Some(q),
        _ => None,
    }
}

/// Whether a question begins with these words.
pub open spec fn is_question(q: Option<Seq<char>>, words: Seq<char>) -> bool {
    q is Some && starts(q->0, words)
}

/// Whether the questions of a plan were put at the places `p`: `at` is the question that stands open
/// once so many answers were given.
pub open spec fn plan_asked<R>(
    at: spec_fn(int) -> Option<Seq<char>>,
    p: Seq<int>,
    plan: PlanView<R>,
) -> bool {
    &&& is_question(at(p[0]), "On-peak price, $ per kWh"@)
    &&& is_question(at(p[1]), "On-peak starts at"@)
    &&& is_question(at(p[2]), "On-peak ends at"@)
    &&& is_question(at(p[3]), "Off-peak price, $ per kWh"@)
    &&& is_question(at(p[4]), "Weekend/holiday price in those same hours"@)
    &&& is_question(at(p[5]), "Does the plan change between summer and winter?"@)
    &&& plan.seasons is Some ==> {
        &&& is_question(at(p[6]), "Summer starts in month"@)
        &&& is_question(at(p[7]), "Winter starts in month"@)
        &&& is_question(at(p[8]), "Winter on-peak price, $ per kWh"@)
    }
    &&& is_question(at(p[9]), "Fixed daily charge, $ per day"@)
}

proof fn lemma_question_starts(q: Seq<char>, more: Seq<char>, words: Seq<char>)
    requires
        starts(q, words),
    ensures
        starts(q + more, words),
{
    assert((q + more).take(words.len() as int) =~= q.take(words.len() as int));
}

proof fn lemma_plan_words()
    ensures
        starts("On-peak price, $ per kWh (e.g. 0.52)"@, "On-peak price, $ per kWh"@),
        starts("On-peak starts at (local hour, 0-23)"@, "On-peak starts at"@),
        starts("On-peak ends at (local hour, 1-24)"@, "On-peak ends at"@),
        starts("Off-peak price, $ per kWh (the other hours)"@, "Off-peak price, $ per kWh"@),
        starts(
            "Weekend/holiday price in those same hours, $ per kWh"@,
            "Weekend/holiday price in those same hours"@,
        ),
        starts(
            "Does the plan change between summer and winter? [y/N] "@,
            "Does the plan change between summer and winter?"@,
        ),
        starts("Summer starts in month (1-12)"@, "Summer starts in month"@),
        starts("Winter starts in month (1-12)"@, "Winter starts in month"@),
        starts(
            "Winter on-peak price, $ per kWh (the same hours, EVERY day in winter - weekends too)"@,
            "Winter on-peak price, $ per kWh"@,
        ),
        starts(
            "Fixed daily charge, $ per day (0 if none or not sure) [0] "@,
            "Fixed daily charge, $ per day"@,
        ),
{
    lemma_words_of_prices();
    lemma_words_of_numbers();
}

proof fn lemma_words_of_prices()
    ensures
        starts("On-peak price, $ per kWh (e.g. 0.52)"@, "On-peak price, $ per kWh"@),
        starts("Off-peak price, $ per kWh (the other hours)"@, "Off-peak price, $ per kWh"@),
        starts(
            "Weekend/holiday price in those same hours, $ per kWh"@,
            "Weekend/holiday price in those same hours"@,
        ),
        starts(
            "Winter on-peak price, $ per kWh (the same hours, EVERY day in winter - weekends too)"@,
            "Winter on-peak price, $ per kWh"@,
        ),
        starts(
            "Fixed daily charge, $ per day (0 if none or not sure) [0] "@,
            "Fixed daily charge, $ per day"@,
        ),
{
    reveal_strlit("On-peak price, $ per kWh (e.g. 0.52)");
    reveal_strlit("On-peak price, $ per kWh");
    assert("On-peak price, $ per kWh (e.g. 0.52)"@.take("On-peak price, $ per kWh"@.len() as int)
        =~= "On-peak price, $ per kWh"@);
    reveal_strlit("Off-peak price, $ per kWh (the other hours)");
    reveal_strlit("Off-peak price, $ per kWh");
    assert("Off-peak price, $ per kWh (the other hours)"@.take(
        "Off-peak price, $ per kWh"@.len() as int,
    ) =~= "Off-peak price, $ per kWh"@);
    reveal_strlit("Weekend/holiday price in those same hours, $ per kWh");
    reveal_strlit("Weekend/holiday price in those same hours");
    assert("Weekend/holiday price in those same hours, $ per kWh"@.take(
        "Weekend/holiday price in those same hours"@.len() as int,
    ) =~= "Weekend/holiday price in those same hours"@);
    reveal_strlit(
        "Winter on-peak price, $ per kWh (the same hours, EVERY day in winter - weekends too)",
    );
    reveal_strlit("Winter on-peak price, $ per kWh");
    assert("Winter on-peak price, $ per kWh (the same hours, EVERY day in winter - weekends too)"@.take(
        "Winter on-peak price, $ per kWh"@.len() as int,
    ) =~= "Winter on-peak price, $ per kWh"@);
    reveal_strlit("Fixed daily charge, $ per day (0 if none or not sure) [0] ");
    reveal_strlit("Fixed daily charge, $ per day");
    assert("Fixed daily charge, $ per day (0 if none or not sure) [0] "@.take(
        "Fixed daily charge, $ per day"@.len() as int,
    ) =~= "Fixed daily charge, $ per day"@);
}

proof fn lemma_words_of_numbers()
    ensures
        starts("On-peak starts at (local hour, 0-23)"@, "On-peak starts at"@),
        starts("On-peak ends at (local hour, 1-24)"@, "On-peak ends at"@),
        starts(
            "Does the plan change between summer and winter? [y/N] "@,
            "Does the plan change between summer and winter?"@,
        ),
        starts("Summer starts in month (1-12)"@, "Summer starts in month"@),
        starts("Winter starts in month (1-12)"@, "Winter starts in month"@),
{
    reveal_strlit("On-peak starts at (local hour, 0-23)");
    reveal_strlit("On-peak starts at");
    assert("On-peak starts at (local hour, 0-23)"@.take("On-peak starts at"@.len() as int)
        =~= "On-peak starts at"@);
    reveal_strlit("On-peak ends at (local hour, 1-24)");
    reveal_strlit("On-peak ends at");
    assert("On-peak ends at (local hour, 1-24)"@.take("On-peak ends at"@.len() as int)
        =~= "On-peak ends at"@);
    reveal_strlit("Does the plan change between summer and winter? [y/N] ");
    reveal_strlit("Does the plan change between summer and winter?");
    assert("Does the plan change between summer and winter? [y/N] "@.take(
        "Does the plan change between summer and winter?"@.len() as int,
    ) =~= "Does the plan change between summer and winter?"@);
    reveal_strlit("Summer starts in month (1-12)");
    reveal_strlit("Summer starts in month");
    assert("Summer starts in month (1-12)"@.take("Summer starts in month"@.len() as int)
        =~= "Summer starts in month"@);
    reveal_strlit("Winter starts in month (1-12)");
    reveal_strlit("Winter starts in month");
    assert("Winter starts in month (1-12)"@.take("Winter starts in month"@.len() as int)
        =~= "Winter starts in month"@);
}

// A dialog whose answers are used up asks its question.
proof fn lemma_opens<R>(t: Talk<R>, q: Seq<char>, default: Option<(R, Seq<char>)>, words: Seq<char>)
    requires
        t.at == t.events.len(),
        starts(q, words),
    ensures
        price_dialog(t, q, default, 3) matches Out::Need(u, RequestView::Ask(s)) && u == t && starts(
            s,
            words,
        ),
        forall|d: u32, lo: u32, hi: u32| #[trigger]
            number_dialog(t, q, d, lo, hi, 3) matches Out::Need(u, RequestView::Ask(s)) && u == t
                && starts(s, words),
{
    lemma_question_starts(q, ": "@, words);
    if let Some(d) = default {
        lemma_question_starts(q, " ["@, words);
        lemma_question_starts(q + " ["@, d.1, words);
        lemma_question_starts(q + " ["@ + d.1, "] "@, words);
    }
    assert forall|d: u32, lo: u32, hi: u32| #[trigger]
        number_dialog(t, q, d, lo, hi, 3) matches Out::Need(u, RequestView::Ask(s)) && u == t && starts(
            s,
            words,
        ) by {
        lemma_question_starts(q, " ["@, words);
        lemma_question_starts(q + " ["@, dec(d as nat), words);
        lemma_question_starts(q + " ["@ + dec(d as nat), "] "@, words);
    }
}

// The peak's answers, and that its questions stand where they begin.
proof fn lemma_peak_given<R>(t: Talk<R>) -> (p: Seq<int>)
    requires
        0 <= t.at <= t.events.len(),
    ensures
        peak_dialog(t) matches Out::Got(u, Ok(Some(peak))) ==> {
            &&& u.events == t.events
            &&& p.len() == 4 && p[0] == t.at && p[3] == u.at
            &&& p[0] < p[1] < p[2] < p[3] <= t.events.len()
            &&& price_given(t.events, p[0], p[1], None, peak.0)
            &&& number_given(t.events, p[1], p[2], 16, 0, 23, peak.1)
            &&& number_given(t.events, p[2], p[3], 21, 1, 24, peak.2)
            &&& is_question(question(peak_dialog(cut(t, p[0]))), "On-peak price, $ per kWh"@)
            &&& is_question(question(peak_dialog(cut(t, p[1]))), "On-peak starts at"@)
            &&& is_question(question(peak_dialog(cut(t, p[2]))), "On-peak ends at"@)
            &&& forall|k: int|
                u.at <= k <= t.events.len() ==> #[trigger] peak_dialog(cut(t, k)) == Out::Got(
                    cut(u, k),
                    Ok::<Option<((R, Seq<char>), u32, u32)>, (int, Seq<char>)>(Some(peak)),
                )
        },
{
    let q0 = "On-peak price, $ per kWh (e.g. 0.52)"@;
    let q1 = "On-peak starts at (local hour, 0-23)"@;
    let q2 = "On-peak ends at (local hour, 1-24)"@;
    reveal(peak_dialog);
    lemma_plan_words();
    lemma_price_given(t, q0, None, 3);
    if let Out::Got(t1, Ok(Some(_))) = price_dialog(t, q0, None, 3) {
        lemma_number_given(t1, q1, 16, 0, 23, 3);
        if let Out::Got(t2, Ok(Some(_))) = number_dialog(t1, q1, 16, 0, 23, 3) {
            lemma_number_given(t2, q2, 21, 1, 24, 3);
            if let Out::Got(t3, Ok(Some(_))) = number_dialog(t2, q2, 21, 1, 24, 3) {
                lemma_opens(cut(t, t.at), q0, None, "On-peak price, $ per kWh"@);
                lemma_opens(cut(t1, t1.at), q1, None, "On-peak starts at"@);
                lemma_opens(cut(t2, t2.at), q2, None, "On-peak ends at"@);
                assert(price_dialog(cut(t, t1.at), q0, None, 3) is Got);
                assert(price_dialog(cut(t, t2.at), q0, None, 3) is Got);
                assert(number_dialog(cut(t1, t2.at), q1, 16, 0, 23, 3) is Got);
                assert forall|k: int| t3.at <= k <= t.events.len() implies #[trigger] peak_dialog(
                    cut(t, k),
                ) == Out::Got(
                    cut(t3, k),
                    Ok::<Option<((R, Seq<char>), u32, u32)>, (int, Seq<char>)>(
                        Some(peak_dialog(t)->Got_1->Ok_0->0),
                    ),
                ) by {
                    assert(price_dialog(cut(t, k), q0, None, 3) is Got);
                    assert(number_dialog(cut(t1, k), q1, 16, 0, 23, 3) is Got);
                    assert(number_dialog(cut(t2, k), q2, 21, 1, 24, 3) is Got);
                }
                seq![t.at, t1.at, t2.at, t3.at]
            } else {
                Seq::empty()
            }
        } else {
            Seq::empty()
        }
    } else {
        Seq::empty()
    }
}

// The answers on the seasons, and that their questions stand where they begin.
#[verifier::rlimit(50)]
#[verifier::spinoff_prover]
proof fn lemma_seasons_given<R>(t: Talk<R>, on: (R, Seq<char>)) -> (p: Seq<int>)
    requires
        0 <= t.at <= t.events.len(),
    ensures
        seasons_dialog(t, on) matches Out::Got(u, Ok(Some(seasons))) ==> {
            &&& u.events == t.events
            &&& p.len() == 5 && p[0] == t.at && p[4] == u.at
            &&& p[1] == p[0] + 1 <= t.events.len()
            &&& p[1] <= u.at <= t.events.len()
            &&& t.events[p[0]] is Answer
            &&& is_question(
                question(seasons_dialog(cut(t, p[0]), on)),
                "Does the plan change between summer and winter?"@,
            )
            &&& match seasons {
                Some(s) => {
                    &&& p[1] < p[2] < p[3] < p[4]
                    &&& typed(t.events, p[0]) is Some && said_yes(typed(t.events, p[0])->0)
                    &&& number_given(t.events, p[1], p[2], 6, 1, 12, s.summer_start)
                    &&& number_given(t.events, p[2], p[3], 10, 1, 12, s.summer_end)
                    &&& price_given(t.events, p[3], p[4], Some(on), s.winter_peak)
                    &&& is_question(
                        question(seasons_dialog(cut(t, p[1]), on)),
                        "Summer starts in month"@,
                    )
                    &&& is_question(
                        question(seasons_dialog(cut(t, p[2]), on)),
                        "Winter starts in month"@,
                    )
                    &&& is_question(
                        question(seasons_dialog(cut(t, p[3]), on)),
                        "Winter on-peak price, $ per kWh"@,
                    )
                },
                None => {
                    &&& typed(t.events, p[0]) is Some ==> !said_yes(typed(t.events, p[0])->0)
                    &&& p[4] == p[1]
                },
            }
            &&& forall|k: int|
                u.at <= k <= t.events.len() ==> #[trigger] seasons_dialog(cut(t, k), on) == Out::Got(
                    cut(u, k),
                    Ok::<Option<Option<SeasonsView<R>>>, (int, Seq<char>)>(Some(seasons)),
                )
        },
{
    let q = "Does the plan change between summer and winter? [y/N] "@;
    let q1 = "Summer starts in month (1-12)"@;
    let q2 = "Winter starts in month (1-12)"@;
    let q3 = "Winter on-peak price, $ per kWh (the same hours, EVERY day in winter - weekends too)"@;
    reveal(seasons_dialog);
    lemma_plan_words();
    lemma_yes_no_settled(t, q, false);
    if let Event::Answer(a) = t.events[t.at] {
        law_yes_starts_with_y(opt_view(a), false);
    }
    if let Out::Got(t0, b) = yes_or_no(t, q, false) {
        assert(next(cut(t, t.at)) is None);
        if !b {
            assert forall|k: int| t0.at <= k <= t.events.len() implies #[trigger] seasons_dialog(
                cut(t, k),
                on,
            ) == Out::Got(
                cut(t0, k),
                Ok::<Option<Option<SeasonsView<R>>>, (int, Seq<char>)>(Some(None)),
            ) by {
                assert(yes_or_no(cut(t, k), q, false) is Got);
            }
            seq![t.at, t0.at, t0.at, t0.at, t0.at]
        } else {
            lemma_number_given(t0, q1, 6, 1, 12, 3);
            if let Out::Got(t1, Ok(Some(_))) = number_dialog(t0, q1, 6, 1, 12, 3) {
                lemma_number_given(t1, q2, 10, 1, 12, 3);
                if let Out::Got(t2, Ok(Some(_))) = number_dialog(t1, q2, 10, 1, 12, 3) {
                    lemma_price_given(t2, q3, Some(on), 3);
                    if let Out::Got(t3, Ok(Some(_))) = price_dialog(t2, q3, Some(on), 3) {
                        lemma_opens(cut(t0, t0.at), q1, None, "Summer starts in month"@);
                        lemma_opens(cut(t1, t1.at), q2, None, "Winter starts in month"@);
                        lemma_opens(cut(t2, t2.at), q3, Some(on), "Winter on-peak price, $ per kWh"@);
                        assert(yes_or_no(cut(t, t0.at), q, false) is Got);
                        assert(yes_or_no(cut(t, t1.at), q, false) is Got);
                        assert(yes_or_no(cut(t, t2.at), q, false) is Got);
                        assert(number_dialog(cut(t0, t1.at), q1, 6, 1, 12, 3) is Got);
                        assert(number_dialog(cut(t0, t2.at), q1, 6, 1, 12, 3) is Got);
                        assert(number_dialog(cut(t1, t2.at), q2, 10, 1, 12, 3) is Got);
                        assert forall|k: int| t3.at <= k <= t.events.len() implies #[trigger] seasons_dialog(
                            cut(t, k),
                            on,
                        ) == Out::Got(
                            cut(t3, k),
                            Ok::<Option<Option<SeasonsView<R>>>, (int, Seq<char>)>(
                                Some(seasons_dialog(t, on)->Got_1->Ok_0->0),
                            ),
                        ) by {
                            assert(yes_or_no(cut(t, k), q, false) is Got);
                            assert(number_dialog(cut(t0, k), q1, 6, 1, 12, 3) is Got);
                            assert(number_dialog(cut(t1, k), q2, 10, 1, 12, 3) is Got);
                            assert(price_dialog(cut(t2, k), q3, Some(on), 3) is Got);
                        }
                        seq![t.at, t0.at, t1.at, t2.at, t3.at]
                    } else {
                        Seq::empty()
                    }
                } else {
                    Seq::empty()
                }
            } else {
                Seq::empty()
            }
        }
    } else {
        Seq::empty()
    }
}

// What is left of a round once the weekend price is known.
spec fn plan_end<R>(
    t: Talk<R>,
    peak: ((R, Seq<char>), u32, u32),
    off_peak: (R, Seq<char>),
    weekend_peak: (R, Seq<char>),
    zero: R,
) -> Out<R, Result<Option<PlanView<R>>, (int, Seq<char>)>> {
    match seasons_dialog(t, peak.0) {
        Out::Need(u, q) => Out::Need(u, q),
        Out::Got(u, Ok(None)) => Out::Got(u, Ok(None)),
        Out::Got(u, Err(e)) => Out::Got(u, Err(e)),
        Out::Got(u, Ok(Some(seasons))) => match charge_dialog(u, zero, 3) {
            Out::Need(w, q) => Out::Need(w, q),
            Out::Got(w, Ok(None)) => Out::Got(w, Ok(None)),
            Out::Got(w, Err(e)) => Out::Got(w, Err(e)),
            Out::Got(w, Ok(Some(fixed))) => Out::Got(
                w,
                Ok(
                    Some(
                        PlanView {
                            on_peak: peak.0,
                            peak_start: peak.1,
                            peak_end: peak.2,
                            off_peak,
                            weekend_peak,
                            seasons,
                            fixed_usd_per_day: fixed,
                        },
                    ),
                ),
            ),
        },
    }
}

// What is left of a round once the peak is known.
spec fn plan_rest<R>(t: Talk<R>, peak: ((R, Seq<char>), u32, u32), zero: R) -> Out<
    R,
    Result<Option<PlanView<R>>, (int, Seq<char>)>,
> {
    match price_dialog(t, "Off-peak price, $ per kWh (the other hours)"@, None, 3) {
        Out::Need(u, q) => Out::Need(u, q),
        Out::Got(u, Ok(None)) => Out::Got(u, Ok(None)),
        Out::Got(u, Err(e)) => Out::Got(u, Err(e)),
        Out::Got(u, Ok(Some(off))) => match price_dialog(
            u,
            "Weekend/holiday price in those same hours, $ per kWh"@,
            Some(peak.0),
            3,
        ) {
            Out::Need(w, q) => Out::Need(w, q),
            Out::Got(w, Ok(None)) => Out::Got(w, Ok(None)),
            Out::Got(w, Err(e)) => Out::Got(w, Err(e)),
            Out::Got(w, Ok(Some(weekend))) => plan_end(w, peak, off, weekend, zero),
        },
    }
}

proof fn lemma_plan_parts<R>(t: Talk<R>, zero: R)
    ensures
        plan_dialog(t, zero) == (match peak_dialog(t) {
            Out::Need(u, q) => Out::Need(u, q),
            Out::Got(u, Ok(None)) => Out::Got(u, Ok(None)),
            Out::Got(u, Err(e)) => Out::Got(u, Err(e)),
            Out::Got(u, Ok(Some(peak))) => plan_rest(u, peak, zero),
        }),
{
    reveal(plan_dialog);
}

// The answers on the end of a round, and that its questions stand where they begin.
proof fn lemma_end_given<R>(
    t: Talk<R>,
    peak: ((R, Seq<char>), u32, u32),
    off: (R, Seq<char>),
    weekend: (R, Seq<char>),
    zero: R,
) -> (b: Seq<int>)
    requires
        0 <= t.at <= t.events.len(),
    ensures
        plan_end(t, peak, off, weekend, zero) matches Out::Got(u, Ok(Some(plan))) ==> {
            let at = |k: int| question(plan_end(cut(t, k), peak, off, weekend, zero));
            &&& u.events == t.events
            &&& plan.on_peak == peak.0 && plan.peak_start == peak.1 && plan.peak_end == peak.2
            &&& plan.off_peak == off && plan.weekend_peak == weekend
            &&& b.len() == 6 && b[0] == t.at && b[5] == u.at
            &&& b[1] == b[0] + 1 <= t.events.len()
            &&& t.at < b[4] < u.at <= t.events.len()
            &&& t.events[b[0]] is Answer
            &&& match plan.seasons {
                Some(s) => {
                    &&& b[1] < b[2] < b[3] < b[4]
                    &&& typed(t.events, b[0]) is Some && said_yes(typed(t.events, b[0])->0)
                    &&& number_given(t.events, b[1], b[2], 6, 1, 12, s.summer_start)
                    &&& number_given(t.events, b[2], b[3], 10, 1, 12, s.summer_end)
                    &&& price_given(t.events, b[3], b[4], Some(peak.0), s.winter_peak)
                    &&& is_question(at(b[1]), "Summer starts in month"@)
                    &&& is_question(at(b[2]), "Winter starts in month"@)
                    &&& is_question(at(b[3]), "Winter on-peak price, $ per kWh"@)
                },
                None => {
                    &&& typed(t.events, b[0]) is Some ==> !said_yes(typed(t.events, b[0])->0)
                    &&& b[4] == b[1]
                },
            }
            &&& charge_given(t.events, b[4], b[5], zero, plan.fixed_usd_per_day)
            &&& is_question(at(b[0]), "Does the plan change between summer and winter?"@)
            &&& is_question(at(b[4]), "Fixed daily charge, $ per day"@)
            &&& forall|k: int|
                u.at <= k <= t.events.len() ==> #[trigger] plan_end(cut(t, k), peak, off, weekend, zero)
                    == Out::Got(cut(u, k), Ok::<Option<PlanView<R>>, (int, Seq<char>)>(Some(plan)))
        },
{
    lemma_plan_words();
    let b = lemma_seasons_given(t, peak.0);
    if let Out::Got(t3, Ok(Some(_))) = seasons_dialog(t, peak.0) {
        lemma_charge_given(t3, zero, 3);
        if let Out::Got(t4, Ok(Some(_))) = charge_dialog(t3, zero, 3) {
            assert(next(cut(t3, t3.at)) is None);
            assert(seasons_dialog(cut(t, t3.at), peak.0) is Got);
            assert forall|k: int| t4.at <= k <= t.events.len() implies #[trigger] plan_end(
                cut(t, k),
                peak,
                off,
                weekend,
                zero,
            ) == Out::Got(
                cut(t4, k),
                Ok::<Option<PlanView<R>>, (int, Seq<char>)>(
                    Some(plan_end(t, peak, off, weekend, zero)->Got_1->Ok_0->0),
                ),
            ) by {
                assert(seasons_dialog(cut(t, k), peak.0) is Got);
                assert(charge_dialog(cut(t3, k), zero, 3) is Got);
            }
            seq![b[0], b[1], b[2], b[3], b[4], t4.at]
        } else {
            Seq::empty()
        }
    } else {
        Seq::empty()
    }
}

// A round behind its peak: where its two prices and its end begin, and that the questions stand there.
proof fn lemma_rest_given<R>(t: Talk<R>, peak: ((R, Seq<char>), u32, u32), zero: R) -> (p: Seq<int>)
    requires
        0 <= t.at <= t.events.len(),
    ensures
        plan_rest(t, peak, zero) matches Out::Got(u, Ok(Some(plan))) ==> {
            let at = |k: int| question(plan_rest(cut(t, k), peak, zero));
            &&& u.events == t.events
            &&& p.len() == 8 && p[0] == t.at && p[7] == u.at
            &&& p[0] < p[1] < p[2]
            &&& plan.on_peak == peak.0 && plan.peak_start == peak.1 && plan.peak_end == peak.2
            &&& price_given(t.events, p[0], p[1], None, plan.off_peak)
            &&& price_given(t.events, p[1], p[2], Some(peak.0), plan.weekend_peak)
            &&& p[3] == p[2] + 1 <= t.events.len()
            &&& p[2] < p[6] < u.at <= t.events.len()
            &&& t.events[p[2]] is Answer
            &&& match plan.seasons {
                Some(s) => {
                    &&& p[3] < p[4] < p[5] < p[6]
                    &&& typed(t.events, p[2]) is Some && said_yes(typed(t.events, p[2])->0)
                    &&& number_given(t.events, p[3], p[4], 6, 1, 12, s.summer_start)
                    &&& number_given(t.events, p[4], p[5], 10, 1, 12, s.summer_end)
                    &&& price_given(t.events, p[5], p[6], Some(peak.0), s.winter_peak)
                    &&& is_question(at(p[3]), "Summer starts in month"@)
                    &&& is_question(at(p[4]), "Winter starts in month"@)
                    &&& is_question(at(p[5]), "Winter on-peak price, $ per kWh"@)
                },
                None => {
                    &&& typed(t.events, p[2]) is Some ==> !said_yes(typed(t.events, p[2])->0)
                    &&& p[6] == p[3]
                },
            }
            &&& charge_given(t.events, p[6], p[7], zero, plan.fixed_usd_per_day)
            &&& is_question(at(p[0]), "Off-peak price, $ per kWh"@)
            &&& is_question(at(p[1]), "Weekend/holiday price in those same hours"@)
            &&& is_question(at(p[2]), "Does the plan change between summer and winter?"@)
            &&& is_question(at(p[6]), "Fixed daily charge, $ per day"@)
            &&& forall|k: int|
                u.at <= k <= t.events.len() ==> #[trigger] plan_rest(cut(t, k), peak, zero) == Out::Got(
                    cut(u, k),
                    Ok::<Option<PlanView<R>>, (int, Seq<char>)>(Some(plan)),
                )
        },
{
    let q1 = "Off-peak price, $ per kWh (the other hours)"@;
    let q2 = "Weekend/holiday price in those same hours, $ per kWh"@;
    lemma_plan_words();
    lemma_price_given(t, q1, None, 3);
    if let Out::Got(t1, Ok(Some(off))) = price_dialog(t, q1, None, 3) {
        lemma_price_given(t1, q2, Some(peak.0), 3);
        if let Out::Got(t2, Ok(Some(weekend))) = price_dialog(t1, q2, Some(peak.0), 3) {
            let b = lemma_end_given(t2, peak, off, weekend, zero);
            lemma_opens(cut(t, t.at), q1, None, "Off-peak price, $ per kWh"@);
            lemma_opens(cut(t1, t1.at), q2, Some(peak.0), "Weekend/holiday price in those same hours"@);
            assert(price_dialog(cut(t, t1.at), q1, None, 3) is Got);
            assert forall|k: int| t2.at <= k <= t.events.len() implies #[trigger] plan_rest(
                cut(t, k),
                peak,
                zero,
            ) == plan_end(cut(t2, k), peak, off, weekend, zero) by {
                assert(price_dialog(cut(t, k), q1, None, 3) is Got);
                assert(price_dialog(cut(t1, k), q2, Some(peak.0), 3) is Got);
            }
            if plan_end(t2, peak, off, weekend, zero) matches Out::Got(u, Ok(Some(_))) {
                assert(plan_rest(cut(t, b[0]), peak, zero) == plan_end(
                    cut(t2, b[0]),
                    peak,
                    off,
                    weekend,
                    zero,
                ));
                assert(plan_rest(cut(t, b[4]), peak, zero) == plan_end(
                    cut(t2, b[4]),
                    peak,
                    off,
                    weekend,
                    zero,
                ));
                seq![t.at, t1.at, b[0], b[1], b[2], b[3], b[4], b[5]]
            } else {
                Seq::empty()
            }
        } else {
            Seq::empty()
        }
    } else {
        Seq::empty()
    }
}

// The answers on one round of a plan, and that its questions stand where they begin.
#[verifier::rlimit(50)]
#[verifier::spinoff_prover]
proof fn lemma_plan_given<R>(t: Talk<R>, zero: R) -> (p: Seq<int>)
    requires
        0 <= t.at <= t.events.len(),
    ensures
        plan_dialog(t, zero) matches Out::Got(u, Ok(Some(plan))) ==> {
            &&& u.events == t.events
            &&& plan_given(t.events, p, zero, plan)
            &&& p[0] == t.at && p[10] == u.at
            &&& plan_asked(|k: int| question(plan_dialog(cut(t, k), zero)), p, plan)
            &&& forall|k: int|
                u.at <= k <= t.events.len() ==> #[trigger] plan_dialog(cut(t, k), zero) == Out::Got(
                    cut(u, k),
                    Ok::<Option<PlanView<R>>, (int, Seq<char>)>(Some(plan)),
                )
        },
{
    let a = lemma_peak_given(t);
    lemma_plan_parts(t, zero);
    if let Out::Got(t0, Ok(Some(peak))) = peak_dialog(t) {
        let b = lemma_rest_given(t0, peak, zero);
        let at = |k: int| question(plan_dialog(cut(t, k), zero));
        let rest = |k: int| question(plan_rest(cut(t0, k), peak, zero));
        assert forall|k: int| t0.at <= k <= t.events.len() implies #[trigger] plan_dialog(cut(t, k), zero)
            == plan_rest(cut(t0, k), peak, zero) by {
            lemma_plan_parts(cut(t, k), zero);
            assert(peak_dialog(cut(t, k)) is Got);
        }
        if let Out::Got(u, Ok(Some(plan))) = plan_rest(t0, peak, zero) {
            lemma_plan_parts(cut(t, a[0]), zero);
            lemma_plan_parts(cut(t, a[1]), zero);
            lemma_plan_parts(cut(t, a[2]), zero);
            let p = seq![a[0], a[1], a[2], b[0], b[1], b[2], b[3], b[4], b[5], b[6], b[7]];
            assert(at(b[0]) == rest(b[0]));
            assert(at(b[1]) == rest(b[1]));
            assert(at(b[2]) == rest(b[2]));
            assert(at(b[6]) == rest(b[6]));
            if plan.seasons is Some {
                assert(at(b[3]) == rest(b[3]));
                assert(at(b[4]) == rest(b[4]));
                assert(at(b[5]) == rest(b[5]));
            }
            assert(plan_asked(at, p, plan));
            p
        } else {
            Seq::empty()
        }
    } else {
        Seq::empty()
    }
}

// ---------------------------------------------------------- plans in a conversation

/// Whether the check of a plan let it pass: it had no doubts, or the person was asked and said yes.
pub open spec fn plan_passed<R>(events: Seq<Event<R>>, i: int) -> bool {
    &&& 0 <= i < events.len()
    &&& events[i] matches Event::Checked(Ok(doubts)) && (doubts@.len() == 0 || (i + 1 < events.len()
        && typed(events, i + 1) is Some && said_yes(typed(events, i + 1)->0)))
}

proof fn lemma_doubts_cut<R>(t: Talk<R>, doubts: Seq<Seq<char>>, k: int)
    ensures
        say_doubts(cut(t, k), doubts) == cut(say_doubts(t, doubts), k),
        say_doubts(t, doubts).events == t.events,
        say_doubts(t, doubts).at == t.at,
    decreases doubts.len(),
{
    if doubts.len() > 0 {
        lemma_doubts_cut(t, doubts.drop_last(), k);
    }
}

// Where a plan comes out of the rounds, the last of them began at some talk, and what stands open within
// it stands open in the whole.
proof fn lemma_rounds_given<R>(t: Talk<R>, zero: R, n: nat) -> (t1: Talk<R>)
    requires
        0 <= t.at <= t.events.len(),
    ensures
        tou_rounds(t, zero, n) matches Out::Got(u, Ok(Some(plan))) ==> {
            &&& u.events == t.events && t1.events == t.events
            &&& t.at <= t1.at <= t.events.len()
            &&& plan_dialog(t1, zero) matches Out::Got(w, Ok(Some(got))) && got == plan && plan_passed(
                t.events,
                w.at,
            )
            &&& forall|k: int|
                t1.at <= k <= t.events.len() && plan_dialog(cut(t1, k), zero) is Need
                    ==> #[trigger] question(tou_rounds(cut(t, k), zero, n)) == question(
                    plan_dialog(cut(t1, k), zero),
                )
        },
    decreases n,
{
    if n > 0 {
        let p = lemma_plan_given(t, zero);
        match plan_dialog(t, zero) {
            Out::Got(w, Ok(Some(plan))) => {
                assert(t.at < w.at <= t.events.len()) by {
                    reveal(price_given);
                    reveal(number_given);
                    reveal(charge_given);
                }
                match next(w) {
                    Some(Event::Checked(Err(e))) => {
                        let said = "That plan cannot be used: "@ + e@ + ". Once more:\n"@;
                        let t2 = say(used(w), said);
                        let t1 = lemma_rounds_given(t2, zero, (n - 1) as nat);
                        if let Out::Got(u, Ok(Some(_))) = tou_rounds(t2, zero, (n - 1) as nat) {
                            assert forall|k: int|
                                t1.at <= k <= t.events.len() && plan_dialog(cut(t1, k), zero) is Need implies #[trigger] question(
                                tou_rounds(cut(t, k), zero, n),
                            ) == question(plan_dialog(cut(t1, k), zero)) by {
                                assert(plan_dialog(cut(t, k), zero) is Got);
                                assert(t.events.take(k)[w.at] == t.events[w.at]);
                                assert(next(cut(w, k)) == next(w));
                                assert(cut(t2, k) == say(used(cut(w, k)), said));
                                assert(question(tou_rounds(cut(t2, k), zero, (n - 1) as nat)) == question(
                                    plan_dialog(cut(t1, k), zero),
                                ));
                            }
                        }
                        t1
                    },
                    Some(Event::Checked(Ok(doubts))) => {
                        if doubts@.len() == 0 {
                            t
                        } else {
                            let q = "Use these numbers anyway? [y/N] "@;
                            let t2 = say_doubts(used(w), views(doubts@));
                            lemma_doubts_cut(used(w), views(doubts@), 0);
                            lemma_yes_no_settled(t2, q, false);
                            if let Event::Answer(a) = t2.events[t2.at] {
                                law_yes_starts_with_y(opt_view(a), false);
                            }
                            match yes_or_no(t2, q, false) {
                                Out::Got(t3, false) => {
                                    let t4 = say(t3, "Once more:\n"@);
                                    let t1 = lemma_rounds_given(t4, zero, (n - 1) as nat);
                                    if let Out::Got(u, Ok(Some(_))) = tou_rounds(
                                        t4,
                                        zero,
                                        (n - 1) as nat,
                                    ) {
                                        assert forall|k: int|
                                            t1.at <= k <= t.events.len() && plan_dialog(
                                                cut(t1, k),
                                                zero,
                                            ) is Need implies #[trigger] question(
                                            tou_rounds(cut(t, k), zero, n),
                                        ) == question(plan_dialog(cut(t1, k), zero)) by {
                                            assert(plan_dialog(cut(t, k), zero) is Got);
                                            assert(t.events.take(k)[w.at] == t.events[w.at]);
                                            assert(next(cut(w, k)) == next(w));
                                            lemma_doubts_cut(used(w), views(doubts@), k);
                                            assert(cut(used(w), k) == used(cut(w, k)));
                                            assert(yes_or_no(cut(t2, k), q, false) == Out::Got(
                                                cut(t3, k),
                                                false,
                                            ));
                                            assert(cut(t4, k) == say(cut(t3, k), "Once more:\n"@));
                                            assert(question(tou_rounds(cut(t4, k), zero, (n - 1) as nat))
                                                == question(plan_dialog(cut(t1, k), zero)));
                                        }
                                    }
                                    t1
                                },
                                _ => t,
                            }
                        }
                    },
                    _ => t,
                }
            },
            _ => t,
        }
    } else {
        t
    }
}

spec fn tou_intro<R>(t: Talk<R>) -> Talk<R> {
    say(
        say(
            say(
                t,
                "\nA time-of-use plan: one peak window on weekdays, its own price on weekends and holidays in\n"@,
            ),
            "the same hours, off-peak the rest - optionally different in summer and winter. Take the numbers\n"@,
        ),
        "from your bill or your utility's tariff page. (More periods, holidays: edit rates.toml afterwards.)\n"@,
    )
}

proof fn lemma_menu_given<R>(t: Talk<R>, x: Texts, zero: R, n: nat) -> (t1: Talk<R>)
    requires
        0 <= t.at <= t.events.len(),
    ensures
        menu_rounds(t, x, zero, n) matches Out::Got(u, Ok(Some(ChoiceView::Tou(plan)))) ==> {
            &&& u.events == t.events && t1.events == t.events
            &&& t.at <= t1.at <= t.events.len()
            &&& plan_dialog(t1, zero) matches Out::Got(w, Ok(Some(got))) && got == plan && plan_passed(
                t.events,
                w.at,
            )
            &&& forall|k: int|
                t1.at <= k <= t.events.len() && plan_dialog(cut(t1, k), zero) is Need
                    ==> #[trigger] question(menu_rounds(cut(t, k), x, zero, n)) == question(
                    plan_dialog(cut(t1, k), zero),
                )
        },
    decreases n,
{
    if n > 0 {
        if let Out::Got(t0, Some(a)) = ask(t, "Choose 1-5 [1] "@) {
            let c = trimmed(a);
            assert(t0.at <= t.events.len());
            let said = "'"@ + c + "' is not one of 1-5.\n"@;
            let again = say(t0, said);
            let plan = c == "5"@ || c == "tou"@;
            let other = c == ""@ || c == "1"@ || c == "2"@ || c == "3"@ || c == "4"@ || c == "s"@ || c
                == "skip"@;
            let t1 = if !other && plan {
                lemma_rounds_given(tou_intro(t0), zero, 3)
            } else {
                lemma_menu_given(again, x, zero, (n - 1) as nat)
            };
            if let Out::Got(u, Ok(Some(ChoiceView::Tou(_)))) = menu_rounds(t, x, zero, n) {
                assert forall|k: int|
                    t1.at <= k <= t.events.len() && plan_dialog(cut(t1, k), zero) is Need implies #[trigger] question(
                    menu_rounds(cut(t, k), x, zero, n),
                ) == question(plan_dialog(cut(t1, k), zero)) by {
                    assert(t.events.take(k)[t.at] == t.events[t.at]);
                    assert(next(cut(t, k)) == next(t));
                    assert(cut(t0, k) == used(cut(t, k)));
                    if !other && plan {
                        assert(cut(tou_intro(t0), k) == tou_intro(cut(t0, k)));
                        assert(question(tou_rounds(cut(tou_intro(t0), k), zero, 3)) == question(
                            plan_dialog(cut(t1, k), zero),
                        ));
                    } else {
                        assert(cut(again, k) == say(cut(t0, k), said));
                        assert(question(menu_rounds(cut(again, k), x, zero, (n - 1) as nat))
                            == question(plan_dialog(cut(t1, k), zero)));
                    }
                }
            }
            t1
        } else {
            t
        }
    } else {
        t
    }
}

proof fn lemma_places_rise<R>(events: Seq<Event<R>>, p: Seq<int>, zero: R, plan: PlanView<R>)
    requires
        plan_given(events, p, zero, plan),
    ensures
        0 <= p[0] < p[1] < p[2] < p[3] < p[4] < p[5] < p[6] <= p[9] < p[10] <= events.len(),
        plan.seasons is Some ==> p[6] < p[7] < p[8] < p[9],
{
    reveal(price_given);
    reveal(number_given);
    reveal(charge_given);
}

proof fn lemma_asked_alike<R>(
    own: spec_fn(int) -> Option<Seq<char>>,
    at: spec_fn(int) -> Option<Seq<char>>,
    p: Seq<int>,
    plan: PlanView<R>,
    n: int,
)
    requires
        plan_asked(own, p, plan),
        0 <= p[0] < p[1] < p[2] < p[3] < p[4] < p[5] < p[6] <= p[9] < p[10] <= n,
        plan.seasons is Some ==> p[6] < p[7] < p[8] < p[9],
        forall|k: int| p[0] <= k <= n && own(k) is Some ==> #[trigger] at(k) == own(k),
    ensures
        plan_asked(at, p, plan),
{
}

// Only a conversation from the menu renders a plan.
proof fn lemma_only_the_menu_plans<R>(t: Talk<R>, o: OptsView, path: Seq<char>, x: Texts, zero: R)
    requires
        !(o.mode is Ask),
    ensures
        !(wizard(t, o, path, x, zero) matches Out::Need(_, RequestView::RenderTou(_))),
{
    match o.mode {
        ModeView::Zip(z) => {
            assert(zip_flag(t, z, x.eia_month@) matches Out::Need(_, q) ==> q is LookupZip);
        },
        ModeView::FromIp => {
            assert(ip_dialog(t, x, false) matches Out::Need(_, q) ==> q is Locate);
        },
        ModeView::Rate(r) => {
            assert(rate_flag(t, r) matches Out::Need(_, q) ==> q is ParseRate);
        },
        _ => {},
    }
}

// What a plan from the menu is asked for, the whole conversation asks for.
proof fn lemma_menu_asks_on<R>(
    events: Seq<Event<R>>,
    o: OptsView,
    path: Seq<char>,
    x: Texts,
    zero: R,
    k: int,
    q: Option<Seq<char>>,
)
    requires
        o.mode is Ask,
        q is Some,
        ({
            let t = Talk { events, at: 0, said: Seq::<Seq<char>>::empty() };
            question(menu_rounds(cut(menu_said(t, x), k), x, zero, 5)) == q
        }),
    ensures
        question(
            wizard(
                Talk { events: events.take(k), at: 0, said: Seq::<Seq<char>>::empty() },
                o,
                path,
                x,
                zero,
            ),
        ) == q,
{
    let t = Talk { events, at: 0, said: Seq::<Seq<char>>::empty() };
    let s = Talk { events: events.take(k), at: 0, said: Seq::<Seq<char>>::empty() };
    assert(cut(menu_said(t, x), k) == menu_said(s, x));
}

/// A plan that is rendered holds what was answered to its questions: every price and hour, the months of
/// summer and winter, and the daily charge. Each is the answer that was given when its own question
/// stood open, the last one where it was asked again; and the plan was checked, and passed.
pub proof fn law_a_plan_holds_what_was_answered<R>(
    events: Seq<Event<R>>,
    o: OptsView,
    path: Seq<char>,
    x: Texts,
    zero: R,
)
    ensures
        ({
            let said = Seq::<Seq<char>>::empty();
            let at = |k: int|
                question(wizard(Talk { events: events.take(k), at: 0, said }, o, path, x, zero));
            wizard(Talk { events, at: 0, said }, o, path, x, zero) matches Out::Need(
                _,
                RequestView::RenderTou(plan),
            ) ==> o.mode is Ask && exists|p: Seq<int>|
                plan_given(events, p, zero, plan) && plan_passed(events, p[10]) && #[trigger] plan_asked(
                    at,
                    p,
                    plan,
                )
        }),
{
    let said = Seq::<Seq<char>>::empty();
    let t = Talk { events, at: 0, said };
    let at = |k: int| question(wizard(Talk { events: events.take(k), at: 0, said }, o, path, x, zero));
    if !(o.mode is Ask) {
        lemma_only_the_menu_plans(t, o, path, x, zero);
    } else {
        let t0 = menu_said(t, x);
        let t1 = lemma_menu_given(t0, x, zero, 5);
        match menu_rounds(t0, x, zero, 5) {
            Out::Got(t2, Ok(Some(ChoiceView::Tou(plan)))) => {
                let p = lemma_plan_given(t1, zero);
                let own = |k: int| question(plan_dialog(cut(t1, k), zero));
                lemma_places_rise(events, p, zero, plan);
                assert forall|k: int| p[0] <= k <= events.len() && own(k) is Some implies #[trigger] at(k)
                    == own(k) by {
                    assert(question(menu_rounds(cut(t0, k), x, zero, 5)) == own(k));
                    lemma_menu_asks_on(events, o, path, x, zero, k, own(k));
                }
                lemma_asked_alike(own, at, p, plan, events.len() as int);
                assert(plan_given(events, p, zero, plan) && plan_passed(events, p[10]) && plan_asked(
                    at,
                    p,
                    plan,
                ));
            },
            _ => {
                lemma_menu_renders_nothing(t0, x, zero, 5);
            },
        }
    }
}

// The menu itself renders nothing.
proof fn lemma_menu_renders_nothing<R>(t: Talk<R>, x: Texts, zero: R, n: nat)
    ensures
        !(menu_rounds(t, x, zero, n) matches Out::Need(_, RequestView::RenderTou(_))),
{
    crate::cost_setup_run::lemma_menu_only_asks(t, x, zero, n);
}

// ------------------------------------------------------------------- flat rates

/// Whether the person agreed to what was proposed: they said yes, or typed nothing.
pub open spec fn agreed<R>(events: Seq<Event<R>>, i: int) -> bool {
    typed(events, i) is Some && (said_yes(typed(events, i)->0) || trimmed(typed(events, i)->0).len()
        == 0)
}

/// Whether answer `i` names a state's average: its price and its state.
pub open spec fn names_average<R>(
    events: Seq<Event<R>>,
    i: int,
    price: (R, Seq<char>),
    state: Seq<char>,
) -> bool {
    match events[i] {
        Event::Zip(ZipLookup::State { code, place, cents, price: p }) => price_view(p) == price && code@
            == state,
        Event::Location(Ok(IpLocation::UsState { code, place, cents, price: p, city })) => price_view(p)
            == price && code@ == state,
        _ => false,
    }
}

/// Whether the first `n` answers give a flat rate: it is what was typed last, read without a doubt or
/// with one and the person's yes; or the average of the state that was looked up last, where the person
/// agreed to it or there was none to ask.
pub open spec fn flat_given<R>(
    events: Seq<Event<R>>,
    n: int,
    interactive: bool,
    price: (R, Seq<char>),
    origin: OriginView,
) -> bool {
    &&& 0 < n <= events.len()
    &&& match origin {
        OriginView::Manual => {
            ||| events[n - 1] matches Event::Rate(Ok(p), None) && price_view(p) == price
            ||| {
                &&& n >= 2
                &&& events[n - 2] matches Event::Rate(Ok(p), Some(_)) && price_view(p) == price
                &&& typed(events, n - 1) is Some && said_yes(typed(events, n - 1)->0)
            }
        },
        OriginView::StateAverage(state, _) => if interactive {
            n >= 2 && names_average(events, n - 2, price, state) && agreed(events, n - 1)
        } else {
            names_average(events, n - 1, price, state)
        },
    }
}

proof fn lemma_rate_typed<R>(t: Talk<R>, n: nat)
    requires
        0 <= t.at,
    ensures
        rate_dialog(t, n) matches Out::Got(u, Ok(Some(v))) ==> u.events == t.events && u.at > t.at
            && flat_given(t.events, u.at, true, v, OriginView::Manual) && flat_given(
            t.events,
            u.at,
            false,
            v,
            OriginView::Manual,
        ),
    decreases n,
{
    if n > 0 {
        if let Out::Got(t1, Some(a)) = ask(t, "Your rate in $ per kWh (e.g. 0.31; 31c also works): "@) {
            match read_rate(t1, a) {
                Out::Got(t2, (Err(e), _)) => lemma_rate_typed(say(t2, e + ".\n"@), (n - 1) as nat),
                Out::Got(t2, (Ok(p), d)) => {
                    lemma_confirmed_settled(t2, d);
                    if let Out::Got(t3, false) = confirmed(t2, d) {
                        lemma_rate_typed(t3, (n - 1) as nat);
                    }
                },
                _ => {},
            }
        }
    }
}

// What a dialog with a person picks is given by their answers.
spec fn picks_what_is_given<R>(
    t: Talk<R>,
    o: Out<R, Result<Option<((R, Seq<char>), OriginView)>, (int, Seq<char>)>>,
) -> bool {
    o matches Out::Got(u, Ok(Some(p))) ==> u.events == t.events && u.at > t.at && flat_given(
        t.events,
        u.at,
        true,
        p.0,
        p.1,
    )
}

proof fn lemma_zip_picks<R>(t: Talk<R>, x: Texts, n: nat)
    requires
        0 <= t.at,
    ensures
        picks_what_is_given(t, zip_dialog(t, x, n)),
    decreases n,
{
    if n == 0 {
        lemma_rate_typed(
            say(
                t,
                "No ZIP code matched after 3 tries - type the rate from your bill instead.\n"@,
            ),
            3,
        );
    } else {
        if let Out::Got(t1, Some(a)) = ask(t, "Your 5-digit ZIP code: "@) {
            if let Some(Event::Zip(z)) = next(t1) {
                match z {
                    ZipLookup::State { code, place, cents, price } => {
                        let q = "ZIP "@ + trimmed(a) + " is in "@ + place@ + ": average home rate "@
                            + cents@ + "c/kWh (U.S. EIA, "@ + x.eia_month@ + ", published "@
                            + x.eia_released@ + ").\nUse it? [Y/n] "@;
                        lemma_agrees(used(t1), q);
                        if let Out::Got(t2, false) = yes_or_no(used(t1), q, true) {
                            lemma_rate_typed(t2, 3);
                        }
                    },
                    ZipLookup::NotCovered { place } => {
                        lemma_rate_typed(
                            say(
                                used(t1),
                                zip_trouble(z) + ". Type the rate from your bill instead.\n"@,
                            ),
                            3,
                        );
                    },
                    _ => {
                        lemma_zip_picks(
                            say(used(t1), zip_trouble(z) + ". Try again.\n"@),
                            x,
                            (n - 1) as nat,
                        );
                    },
                }
            }
        }
    }
}

proof fn lemma_agrees<R>(t: Talk<R>, q: Seq<char>)
    requires
        0 <= t.at,
    ensures
        yes_or_no(t, q, true) matches Out::Got(u, b) ==> u.events == t.events && u.at == t.at + 1
            <= t.events.len() && b == agreed(t.events, t.at),
{
    lemma_yes_no_settled(t, q, true);
    if 0 <= t.at < t.events.len() {
        if let Event::Answer(a) = t.events[t.at] {
            law_yes_starts_with_y(opt_view(a), true);
        }
    }
}

proof fn lemma_lookup_picks<R>(t: Talk<R>, x: Texts)
    requires
        0 <= t.at,
    ensures
        picks_what_is_given(t, ip_lookup(t, x, true)),
        ip_lookup(t, x, false) matches Out::Got(u, Ok(Some(p))) ==> u.events == t.events && flat_given(
            t.events,
            u.at,
            false,
            p.0,
            p.1,
        ),
{
    match next(t) {
        Some(Event::Location(Err(e))) => {
            let why = "the location lookup failed ("@ + e@ + ")"@;
            lemma_zip_picks(say(used(t), why + ". Enter your ZIP code instead:\n"@), x, 3);
        },
        Some(Event::Location(Ok(l))) => match l {
            IpLocation::UsNotCovered { region } => {
                let why = x.ip_name@ + " places you in '"@ + region@
                    + "', which EIA's state table does not cover"@;
                lemma_zip_picks(say(used(t), why + ". Enter your ZIP code instead:\n"@), x, 3);
            },
            IpLocation::NotUs { country } => {
                let why = x.ip_name@ + " places you outside the US ("@ + country@
                    + "); the built-in table covers US states only"@;
                lemma_rate_typed(say(used(t), why + ". Type the rate from your bill:\n"@), 3);
            },
            IpLocation::UsState { code, place, cents, price, city } => {
                let q = x.ip_name@ + " places you in "@ + place_text(city@, place@)
                    + ": average home rate "@ + cents@ + "c/kWh (U.S. EIA, "@ + x.eia_month@
                    + ").\nUse it? [Y/n] "@;
                lemma_agrees(used(t), q);
                if let Out::Got(t1, false) = yes_or_no(used(t), q, true) {
                    lemma_zip_picks(t1, x, 3);
                }
            },
        },
        _ => {},
    }
}

proof fn lemma_ip_picks<R>(t: Talk<R>, x: Texts)
    requires
        0 <= t.at,
    ensures
        picks_what_is_given(t, ip_dialog(t, x, true)),
{
    let t0 = say(
        say(
            t,
            "This sends ONE request to "@ + x.ip_url@ + ". "@ + x.ip_name@
                + " sees your public IP address and answers with\n"@,
        ),
        "an approximate location (city, state, country). Nothing else is sent, and lss keeps only the state.\n"@,
    );
    match yes_or_no(t0, "Contact "@ + x.ip_name@ + " now? [y/N] "@, false) {
        Out::Got(t1, true) => {
            lemma_lookup_picks(t1, x);
        },
        Out::Got(t1, false) => {
            lemma_zip_picks(
                say(t1, "Not contacted. Your ZIP code works without the network:\n"@),
                x,
                3,
            );
        },
        _ => {},
    }
}

proof fn lemma_menu_picks<R>(t: Talk<R>, x: Texts, zero: R, n: nat)
    requires
        0 <= t.at,
    ensures
        menu_rounds(t, x, zero, n) matches Out::Got(u, Ok(Some(ChoiceView::Flat(p)))) ==> u.events
            == t.events && flat_given(t.events, u.at, true, p.0, p.1),
    decreases n,
{
    if n > 0 {
        if let Out::Got(t1, Some(a)) = ask(t, "Choose 1-5 [1] "@) {
            let c = trimmed(a);
            lemma_zip_picks(t1, x, 3);
            lemma_ip_picks(t1, x);
            lemma_rate_typed(t1, 3);
            lemma_menu_picks(
                say(t1, "'"@ + c + "' is not one of 1-5.\n"@),
                x,
                zero,
                (n - 1) as nat,
            );
        }
    }
}

/// A flat rate that is rendered is the one that was given: what the person typed, or the average of the
/// state that their ZIP code or their address was looked up as, and then only with their agreement where
/// they were asked. It is rendered with that state as its source, or as typed.
pub proof fn law_a_flat_rate_is_the_one_given<R>(
    events: Seq<Event<R>>,
    o: OptsView,
    path: Seq<char>,
    x: Texts,
    zero: R,
)
    ensures
        wizard(Talk { events, at: 0, said: Seq::<Seq<char>>::empty() }, o, path, x, zero) matches Out::Need(
            u,
            RequestView::Render(price, origin),
        ) ==> flat_given(events, u.at, o.mode is Ask, price, origin),
{
    let t = Talk { events, at: 0, said: Seq::<Seq<char>>::empty() };
    match o.mode {
        ModeView::Ask => {
            lemma_menu_picks(menu_said(t, x), x, zero, 5);
            crate::cost_setup_run::lemma_menu_only_asks(menu_said(t, x), x, zero, 5);
        },
        ModeView::FromIp => {
            lemma_lookup_picks(t, x);
        },
        _ => {},
    }
}

/// Before anything is answered each way to price asks for its own: a ZIP code from the command line is
/// looked up, a rate is read as it was typed, the location service is asked, and the menu asks the
/// person; with nothing to price the wizard only looks at what is there.
pub proof fn law_each_way_asks_for_its_own<R>(o: OptsView, path: Seq<char>, x: Texts, zero: R)
    ensures
        ({
            let t = Talk { events: Seq::<Event<R>>::empty(), at: 0, said: Seq::empty() };
            wizard(t, o, path, x, zero) matches Out::Need(_, q) && match o.mode {
                ModeView::Zip(z) => q == RequestView::<R>::LookupZip(z),
                ModeView::Rate(r) => q == RequestView::<R>::ParseRate(r),
                ModeView::FromIp => q is Locate,
                ModeView::Ask => q is Ask,
                ModeView::Skip => q is Existing,
            }
        }),
{
    let t = Talk { events: Seq::<Event<R>>::empty(), at: 0, said: Seq::<Seq<char>>::empty() };
    reveal_with_fuel(menu_rounds, 2);
    assert(next(menu_said(t, x)) is None);
}

// -------------------------------------------------------------------- the ending

// What follows a rendered text.
proof fn lemma_delivered<R>(
    t: Talk<R>,
    o: OptsView,
    path: Seq<char>,
    text: Seq<char>,
    done: Seq<char>,
    interactive: bool,
)
    requires
        0 < t.at,
    ensures
        match delivered(t, o, path, text, done, interactive) {
            Out::Need(u, q) => {
                &&& u.events == t.events && u.at >= t.at
                &&& q is Existing || q is Ask || q == RequestView::<R>::Write(text)
            },
            Out::Got(u, code) => {
                &&& u.events == t.events
                &&& code == 0 || code == 1 || code == 3
                &&& code == 3 ==> !o.force
                &&& o.dry_run ==> u.at == t.at && code == 0
                &&& !o.dry_run ==> {
                    &&& t.at < u.at <= t.events.len()
                    &&& code == 0 <==> is_written(t.events[u.at - 1])
                    &&& code == 3 && !interactive ==> t.events[u.at - 1] matches Event::Existing(Some(_))
                }
            },
        },
{
    if !o.dry_run {
        match next(t) {
            Some(Event::Existing(None)) => {
                assert(next(used(t)) matches Some(e) ==> e == t.events[t.at + 1]);
            },
            Some(Event::Existing(Some(e))) => {
                let q = path + " already exists ("@ + e@ + "). Replace it? [y/N] "@;
                assert(next(used(t)) matches Some(e) ==> e == t.events[t.at + 1]);
                if let Out::Got(t1, true) = yes_or_no(used(t), q, false) {
                    assert(next(t1) matches Some(e) ==> e == t.events[t.at + 2]);
                }
            },
            _ => {},
        }
    }
}

/// Whether an answer says that the file was written.
pub open spec fn is_written<R>(e: Event<R>) -> bool {
    match e {
        Event::Written(r) => r is Ok,
        _ => false,
    }
}

/// What is written is what was rendered, letter for letter.
pub proof fn law_what_is_rendered_is_written<R>(
    events: Seq<Event<R>>,
    o: OptsView,
    path: Seq<char>,
    x: Texts,
    zero: R,
)
    ensures
        wizard(Talk { events, at: 0, said: Seq::<Seq<char>>::empty() }, o, path, x, zero) matches Out::Need(
            u,
            RequestView::Write(text),
        ) ==> exists|i: int|
            0 <= i < u.at && i < events.len() && (#[trigger] events[i] matches Event::Rendered {
                text: t,
                label,
            } && t@ == text),
{
    let t = Talk { events, at: 0, said: Seq::<Seq<char>>::empty() };
    match o.mode {
        ModeView::Ask => {
            let t0 = menu_said(t, x);
            lemma_menu_picks(t0, x, zero, 5);
            crate::cost_setup_run::lemma_menu_only_asks(t0, x, zero, 5);
            match menu_rounds(t0, x, zero, 5) {
                Out::Got(w, Ok(Some(ChoiceView::Tou(p)))) => {
                    crate::cost_setup_run::lemma_menu_reads_on(t0, x, zero, 5);
                    lemma_plan_written(w, o, path, p);
                },
                Out::Got(w, Ok(Some(ChoiceView::Flat(p)))) => {
                    lemma_flat_written(w, o, path, p);
                },
                _ => {},
            }
        },
        ModeView::Zip(z) => {
            if let Out::Got(w, Ok(Some(p))) = zip_flag(t, z, x.eia_month@) {
                lemma_flat_written(w, o, path, p);
            }
        },
        ModeView::FromIp => {
            lemma_lookup_picks(t, x);
            if let Out::Got(w, Ok(Some(p))) = ip_dialog(t, x, false) {
                lemma_flat_written(w, o, path, p);
            }
        },
        ModeView::Rate(r) => {
            if let Out::Got(w, Ok(Some(p))) = rate_flag(t, r) {
                lemma_flat_written(w, o, path, p);
            }
        },
        ModeView::Skip => {},
    }
}

proof fn lemma_plan_written<R>(t: Talk<R>, o: OptsView, path: Seq<char>, p: PlanView<R>)
    requires
        0 <= t.at,
    ensures
        tou_written(t, o, path, p) matches Out::Need(u, RequestView::Write(text)) ==> exists|i: int|
            0 <= i < u.at && i < t.events.len() && (#[trigger] t.events[i] matches Event::Rendered {
                text: w,
                label,
            } && w@ == text),
{
    if let Some(Event::Rendered { text, label }) = next(t) {
        lemma_delivered(
            used(t),
            o,
            path,
            text@,
            crate::cost_setup_run::tou_line(label@, p, path),
            true,
        );
        assert(t.events[t.at] is Rendered);
    }
}

proof fn lemma_flat_written<R>(
    t: Talk<R>,
    o: OptsView,
    path: Seq<char>,
    p: ((R, Seq<char>), OriginView),
)
    requires
        0 <= t.at,
    ensures
        flat_written(t, o, path, p) matches Out::Need(u, RequestView::Write(text)) ==> exists|i: int|
            0 <= i < u.at && i < t.events.len() && (#[trigger] t.events[i] matches Event::Rendered {
                text: w,
                label,
            } && w@ == text),
{
    if let Some(Event::Rendered { text, label }) = next(t) {
        lemma_delivered(
            used(t),
            o,
            path,
            text@,
            crate::cost_setup_run::flat_line(label@, p.0.1, path),
            o.mode is Ask,
        );
        assert(t.events[t.at] is Rendered);
    }
}

// The exit code of a rate from the command line.
proof fn lemma_picked_code<R>(
    t: Talk<R>,
    o: OptsView,
    path: Seq<char>,
    a: Result<Option<((R, Seq<char>), OriginView)>, (int, Seq<char>)>,
)
    requires
        0 < t.at <= t.events.len(),
        !(o.mode is Ask),
        a matches Err(e) ==> e.0 == 1 && !is_written(t.events[t.at - 1]) && !(t.events[t.at - 1] is Rendered),
        !(a matches Ok(None)),
    ensures
        picked(t, o, path, a) matches Out::Got(u, code) ==> {
            &&& u.events == t.events
            &&& code == 0 || code == 1 || code == 3
            &&& 0 < u.at <= t.events.len()
            &&& code == 0 <==> is_written(t.events[u.at - 1]) || (o.dry_run && t.events[u.at - 1] is Rendered)
            &&& code == 3 ==> !o.force && !o.dry_run && t.events[u.at - 1] matches Event::Existing(Some(_))
        },
{
    if let Ok(Some(p)) = a {
        if let Some(Event::Rendered { text, label }) = next(t) {
            lemma_delivered(
                used(t),
                o,
                path,
                text@,
                crate::cost_setup_run::flat_line(label@, p.0.1, path),
                false,
            );
            assert(t.events[t.at] is Rendered);
        }
    }
}

/// The exit code tells what became of a rate from the command line: 0 where it was written or only
/// shown, 1 where it could not be had or written, 3 where an existing file was kept.
pub proof fn law_the_exit_code_tells_what_became<R>(
    events: Seq<Event<R>>,
    o: OptsView,
    path: Seq<char>,
    x: Texts,
    zero: R,
)
    requires
        o.mode is Zip || o.mode is FromIp || o.mode is Rate,
    ensures
        wizard(Talk { events, at: 0, said: Seq::<Seq<char>>::empty() }, o, path, x, zero) matches Out::Got(
            u,
            code,
        ) ==> {
            &&& code == 0 || code == 1 || code == 3
            &&& 0 < u.at <= events.len()
            &&& code == 0 <==> is_written(events[u.at - 1]) || (o.dry_run && events[u.at - 1] is Rendered)
            &&& code == 3 ==> !o.force && !o.dry_run && events[u.at - 1] matches Event::Existing(Some(_))
        },
{
    let t = Talk { events, at: 0, said: Seq::<Seq<char>>::empty() };
    match o.mode {
        ModeView::Zip(z) => {
            if let Out::Got(w, a) = zip_flag(t, z, x.eia_month@) {
                lemma_picked_code(w, o, path, a);
            }
        },
        ModeView::Rate(r) => {
            if let Out::Got(w, a) = rate_flag(t, r) {
                lemma_picked_code(w, o, path, a);
            }
        },
        _ => {
            if let Out::Got(w, a) = ip_dialog(t, x, false) {
                lemma_picked_code(w, o, path, a);
            }
        },
    }
}

// ------------------------------------------------------------- the ways and the menu

/// Each flag sets its own and leaves the rest; those that need a value take the one behind them, and
/// are refused without one; an argument that is not known is refused and named; and at most one way to
/// price may be chosen.
pub proof fn law_each_flag_sets_its_own(args: Seq<Seq<char>>, i: int, o: OptsView, chosen: int)
    requires
        0 <= i <= args.len(),
    ensures
        i == args.len() ==> (read_args(args, i, o, chosen) is Ok <==> chosen <= 1),
        i == args.len() && chosen <= 1 ==> read_args(args, i, o, chosen) == Ok::<
            OptsView,
            Seq<char>,
        >(o),
        i < args.len() ==> {
            let a = args[i];
            let r = read_args(args, i, o, chosen);
            let known = seq![
                "--zip"@,
                "--from-ip"@,
                "--rate"@,
                "--skip"@,
                "--out"@,
                "--force"@,
                "--dry-run"@,
            ];
            &&& a == "--from-ip"@ ==> r == read_args(
                args,
                i + 1,
                (OptsView { mode: ModeView::FromIp, ..o }),
                chosen + 1,
            )
            &&& a == "--skip"@ ==> r == read_args(
                args,
                i + 1,
                (OptsView { mode: ModeView::Skip, ..o }),
                chosen + 1,
            )
            &&& a == "--force"@ ==> r == read_args(
                args,
                i + 1,
                (OptsView { force: true, ..o }),
                chosen,
            )
            &&& a == "--dry-run"@ ==> r == read_args(
                args,
                i + 1,
                (OptsView { dry_run: true, ..o }),
                chosen,
            )
            &&& a == "--zip"@ && i + 1 < args.len() ==> r == read_args(
                args,
                i + 2,
                (OptsView { mode: ModeView::Zip(args[i + 1]), ..o }),
                chosen + 1,
            )
            &&& a == "--rate"@ && i + 1 < args.len() ==> r == read_args(
                args,
                i + 2,
                (OptsView { mode: ModeView::Rate(args[i + 1]), ..o }),
                chosen + 1,
            )
            &&& a == "--out"@ && i + 1 < args.len() ==> r == read_args(
                args,
                i + 2,
                (OptsView { out: args[i + 1], ..o }),
                chosen,
            )
            &&& (a == "--zip"@ || a == "--rate"@ || a == "--out"@) && i + 1 == args.len() ==> r is Err
                && r->Err_0 == a + " needs a value"@
            &&& !known.contains(a) ==> r is Err && crate::text::ends(r->Err_0, a)
        },
{
    if i < args.len() {
        let a = args[i];
        let known = seq![
            "--zip"@,
            "--from-ip"@,
            "--rate"@,
            "--skip"@,
            "--out"@,
            "--force"@,
            "--dry-run"@,
        ];
        assert(known[0] == "--zip"@ && known[1] == "--from-ip"@ && known[2] == "--rate"@);
        assert(known[3] == "--skip"@ && known[4] == "--out"@ && known[5] == "--force"@);
        assert(known[6] == "--dry-run"@);
        reveal_strlit("--zip");
        reveal_strlit("--from-ip");
        reveal_strlit("--rate");
        reveal_strlit("--skip");
        reveal_strlit("--out");
        reveal_strlit("--force");
        reveal_strlit("--dry-run");
        reveal_strlit(" needs a value");
        reveal_strlit("--zip needs a value");
        reveal_strlit("--rate needs a value");
        reveal_strlit("--out needs a value");
        assert("--zip"@[2] == 'z' && "--out"@[2] == 'o' && "--rate"@[2] == 'r' && "--skip"@[2] == 's');
        assert("--zip"@.len() == 5 && "--out"@.len() == 5 && "--rate"@.len() == 6 && "--skip"@.len()
            == 6);
        assert("--force"@.len() == 7 && "--from-ip"@.len() == 9 && "--dry-run"@.len() == 9);
        assert("--from-ip"@[2] == 'f' && "--dry-run"@[2] == 'd');
        assert("--zip needs a value"@ =~= "--zip"@ + " needs a value"@);
        assert("--rate needs a value"@ =~= "--rate"@ + " needs a value"@);
        assert("--out needs a value"@ =~= "--out"@ + " needs a value"@);
        let e = "unknown argument "@ + a;
        assert(e.skip(e.len() - a.len()) =~= a);
    }
}

/// Without a flag the wizard asks, writes where rates are looked for, and neither replaces what is
/// there nor only rehearses.
pub proof fn law_without_a_flag_the_wizard_asks()
    ensures
        read_args(Seq::empty(), 0, default_opts(), 0) matches Ok(o) && o.mode is Ask && !o.force
            && !o.dry_run && o.out == "~/.config/lss/rates.toml"@,
{
}

/// Each choice of the menu leads to its own question: the ZIP code, which is also what no answer
/// stands for; leave to ask the location service, which is not asked before it is given; the rate
/// itself; and the peak price of a plan. A skip asks nothing more, and what is no choice is asked
/// again.
pub proof fn law_each_choice_leads_to_its_own<R>(a: String, path: Seq<char>, o: OptsView, x: Texts, zero: R)
    requires
        o.mode is Ask,
    ensures
        ({
            let c = trimmed(a@);
            let t = Talk {
                events: seq![Event::<R>::Answer(Some(a))],
                at: 0,
                said: Seq::<Seq<char>>::empty(),
            };
            wizard(t, o, path, x, zero) matches Out::Need(_, q) && {
                &&& c.len() == 0 || c == "1"@ ==> q == RequestView::<R>::Ask("Your 5-digit ZIP code: "@)
                &&& c == "2"@ ==> q == RequestView::<R>::Ask("Contact "@ + x.ip_name@ + " now? [y/N] "@)
                &&& c == "3"@ ==> q == RequestView::<R>::Ask(
                    "Your rate in $ per kWh (e.g. 0.31; 31c also works): "@,
                )
                &&& c == "4"@ || c == "s"@ || c == "skip"@ ==> q is Existing
                &&& c == "5"@ || c == "tou"@ ==> q == RequestView::<R>::Ask(
                    "On-peak price, $ per kWh (e.g. 0.52)"@ + ": "@,
                )
                &&& c.len() > 0 && !seq!["1"@, "2"@, "3"@, "4"@, "s"@, "skip"@, "5"@, "tou"@].contains(
                    c,
                ) ==> q == RequestView::<R>::Ask("Choose 1-5 [1] "@)
            }
        }),
{
    let c = trimmed(a@);
    let t = Talk {
        events: seq![Event::<R>::Answer(Some(a))],
        at: 0,
        said: Seq::<Seq<char>>::empty(),
    };
    let listed = seq!["1"@, "2"@, "3"@, "4"@, "s"@, "skip"@, "5"@, "tou"@];
    assert(listed[0] == "1"@ && listed[1] == "2"@ && listed[2] == "3"@ && listed[3] == "4"@);
    assert(listed[4] == "s"@ && listed[5] == "skip"@ && listed[6] == "5"@ && listed[7] == "tou"@);
    reveal_strlit("");
    reveal_strlit("1");
    reveal_strlit("2");
    reveal_strlit("3");
    reveal_strlit("4");
    reveal_strlit("5");
    reveal_strlit("s");
    reveal_strlit("skip");
    reveal_strlit("tou");
    assert("1"@[0] == '1' && "2"@[0] == '2' && "3"@[0] == '3' && "4"@[0] == '4' && "5"@[0] == '5');
    assert("s"@[0] == 's' && "skip"@.len() == 4 && "tou"@.len() == 3 && "s"@.len() == 1);
    assert(c.len() == 0 ==> c =~= ""@);
    let t0 = menu_said(t, x);
    assert(next(t0) == Some(Event::<R>::Answer(Some(a))));
    let t1 = used(t0);
    assert(next(t1) is None);
    reveal_with_fuel(menu_rounds, 3);
    reveal_with_fuel(zip_dialog, 2);
    reveal_with_fuel(rate_dialog, 2);
    reveal_with_fuel(price_dialog, 2);
    reveal_with_fuel(tou_rounds, 2);
    reveal(peak_dialog);
    reveal(plan_dialog);
}

/// A rate from the command line that is doubted or cannot be read is refused, and so are a ZIP code
/// without a state's average and a place without one: the program fails, and nothing is rendered.
pub proof fn law_a_flag_that_does_not_help_is_refused<R>(
    events: Seq<Event<R>>,
    o: OptsView,
    path: Seq<char>,
    x: Texts,
    zero: R,
)
    requires
        events.len() > 0,
    ensures
        ({
            let t = Talk { events, at: 0, said: Seq::<Seq<char>>::empty() };
            let w = wizard(t, o, path, x, zero);
            &&& o.mode is Rate && (events[0] matches Event::Rate(r, d) && (r is Err || d is Some))
                ==> (w matches Out::Got(u, code) && code == 1 && u.at == 1)
            &&& o.mode is Zip && (events[0] matches Event::Zip(z) && !(z is State)) ==> (w matches Out::Got(
                u,
                code,
            ) && code == 1 && u.at == 1)
            &&& o.mode is FromIp && (events[0] matches Event::Location(l) && (l is Err || !(l->Ok_0
                is UsState))) ==> (w matches Out::Got(u, code) && code == 1 && u.at == 1)
        }),
{
    let t = Talk { events, at: 0, said: Seq::<Seq<char>>::empty() };
    assert(next(t) == Some(events[0]));
}

/// What was stored is said with the price that was given and where it was stored; a plan also with its
/// hours.
pub proof fn law_the_last_line_says_what_was_stored<R>(
    label: Seq<char>,
    shown: Seq<char>,
    path: Seq<char>,
    p: PlanView<R>,
)
    ensures
        crate::text::holds(flat_line(label, shown, path), label + " = $"@ + shown + " /kWh -> "@ + path),
        crate::text::holds(
            tou_line(label, p, path),
            "on-peak $"@ + p.on_peak.1 + " /kWh "@ + dec(p.peak_start as nat) + "-"@ + dec(
                p.peak_end as nat,
            ) + "h weekdays, off-peak $"@ + p.off_peak.1 + " /kWh -> "@ + path,
        ),
{
    let a = label + " = $"@ + shown + " /kWh -> "@ + path;
    assert(flat_line(label, shown, path) =~= "rate: "@ + a + "\n"@);
    crate::text::lemma_stands_between("rate: "@, a, "\n"@);
    let b = "on-peak $"@ + p.on_peak.1 + " /kWh "@ + dec(p.peak_start as nat) + "-"@ + dec(
        p.peak_end as nat,
    ) + "h weekdays, off-peak $"@ + p.off_peak.1 + " /kWh -> "@ + path;
    let e = " = on-peak $"@;
    reveal_strlit(" = on-peak $");
    reveal_strlit("on-peak $");
    assert(e =~= e.take(3) + "on-peak $"@);
    let front = "rate: "@ + label + e.take(3);
    assert(tou_line(label, p, path) =~= front + b + "\n"@);
    crate::text::lemma_stands_between(front, b, "\n"@);
}

} // verus!
