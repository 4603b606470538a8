//! The alert sink: what it is asked, and what its answer means.

use crate::cmd::CmdOutput;
use crate::text::{
    contains, dec_i64, dec_int, holds, lines, lines_of, parse_i64, parse_int, trim, trimmed, views,
};
use vstd::prelude::*;
use vstd::string::*;

verus! {

/// What the sink is asked.
pub enum Job {
    Alert { id: i64, severity: String, message: String },
    /// spooled mail is tried again although there is no new alert
    Flush,
}

/// The arguments of the sink for a job, and the alert's id where there is one.
pub fn sink_args(job: &Job) -> (r: (Vec<String>, Option<String>))
    ensures
        match *job {
            Job::Alert { id, severity, message } => views(r.0@) == seq![severity@, message@]
                && r.1 is Some && r.1->0@ == dec_int(id as int),
            Job::Flush => views(r.0@) == seq!["--flush"@] && r.1 is None,
        },
{
    let mut args: Vec<String> = Vec::new();
    match job {
        Job::Alert { id, severity, message } => {
            args.push(severity.clone());
            args.push(message.clone());
            assert(views(args@) =~= seq![severity@, message@]);
            (args, Some(dec_i64(*id)))
        },
        Job::Flush => {
            args.push("--flush".to_owned());
            assert(views(args@) =~= seq!["--flush"@]);
            (args, None)
        },
    }
}

/// The last of these lines that is not blank.
pub open spec fn last_said(ls: Seq<Seq<char>>) -> Seq<char>
    decreases ls.len(),
{
    if ls.len() == 0 {
        Seq::empty()
    } else if trimmed(ls.last()).len() > 0 {
        trimmed(ls.last())
    } else {
        last_said(ls.drop_last())
    }
}

/// The last line of a program that is not blank.
pub fn last_line(stdout: &str) -> (r: String)
    ensures
        r@ == last_said(lines_of(stdout@)),
{
    let ls = lines(stdout);
    let ghost all = views(ls@);
    let mut i: usize = ls.len();
    assert(all.take(all.len() as int) =~= all);
    while i > 0
        invariant
            i <= ls@.len(),
            all == views(ls@),
            all == lines_of(stdout@),
            last_said(all) == last_said(all.take(i as int)),
        decreases i,
    {
        proof {
            assert(all.take(i as int).drop_last() =~= all.take(i - 1));
            assert(all.take(i as int).last() == ls@[i - 1]@);
        }
        let t = trim(ls[i - 1].as_str());
        if !t.as_str().is_empty() {
            return t;
        }
        i -= 1;
    }
    String::new()
}

/// What the sink's answer to an alert means: whether a leg got through now, and what it said last.
pub fn alert_outcome(run: &Result<CmdOutput, String>) -> (r: (bool, String))
    ensures
        match *run {
            Ok(o) => r.0 == holds(o.stdout@, "delivered=1"@) && r.1@ == last_said(lines_of(o.stdout@)),
            Err(_) => !r.0 && r.1@.len() == 0,
        },
{
    match run {
        Ok(o) => (contains(o.stdout.as_str(), "delivered=1"), last_line(o.stdout.as_str())),
        Err(_) => (false, String::new()),
    }
}

/// What is said of a flush: nothing while nothing is spooled.
pub fn flush_said(stdout: &str) -> (r: Option<String>)
    ensures
        ({
            let said = last_said(lines_of(stdout@));
            match r {
                Some(s) => s@ == said && !holds(said, "flushed=0 spool=0"@),
                None => holds(said, "flushed=0 spool=0"@),
            }
        }),
{
    let s = last_line(stdout);
    if contains(s.as_str(), "flushed=0 spool=0") {
        None
    } else {
        Some(s)
    }
}

/// The number that a line writes.
pub open spec fn line_id(line: Seq<char>) -> Option<i64> {
    match parse_int(trimmed(line), true) {
        Some(n) if i64::MIN <= n <= i64::MAX => Some(n as i64),
        _ => None,
    }
}

/// The numbers that lines write, of those that write one.
pub open spec fn line_ids(ls: Seq<Seq<char>>) -> Seq<i64>
    decreases ls.len(),
{
    if ls.len() == 0 {
        Seq::empty()
    } else {
        let before = line_ids(ls.drop_last());
        match line_id(ls.last()) {
            Some(n) => before.push(n),
            None => before,
        }
    }
}

/// The ids of the alerts whose spooled mail was handed over late, from the file that says so.
pub fn take_late_deliveries(text: &str) -> (r: Vec<i64>)
    ensures
        r@ == line_ids(lines_of(text@)),
{
    let ls = lines(text);
    let ghost all = views(ls@);
    let mut out: Vec<i64> = Vec::new();
    let mut i: usize = 0;
    while i < ls.len()
        invariant
            i <= ls@.len(),
            all == views(ls@),
            out@ == line_ids(all.take(i as int)),
        decreases ls@.len() - i,
    {
        proof {
            assert(all.take(i + 1).drop_last() =~= all.take(i as int));
            assert(all.take(i + 1).last() == ls@[i as int]@);
        }
        if let Some(n) = parse_i64(trim(ls[i].as_str()).as_str()) {
            out.push(n);
        }
        i += 1;
    }
    assert(all.take(all.len() as int) =~= all);
    out
}

/// What the sink said last is its last line with anything on it, however many blank lines follow; a
/// sink that said nothing said nothing last.
pub proof fn law_blank_lines_say_nothing(ls: Seq<Seq<char>>, line: Seq<char>)
    ensures
        last_said(Seq::empty()).len() == 0,
        trimmed(line).len() > 0 ==> last_said(ls.push(line)) == trimmed(line),
        trimmed(line).len() == 0 ==> last_said(ls.push(line)) == last_said(ls),
{
    assert(ls.push(line).drop_last() =~= ls);
}

/// Of a file of ids every number counts, in its order and with white space around it or not, and every
/// other line is passed over.
pub proof fn law_each_number_is_an_id(ls: Seq<Seq<char>>, line: Seq<char>, n: i64)
    ensures
        line_ids(Seq::empty()).len() == 0,
        trimmed(line) == dec_int(n as int) ==> line_ids(ls.push(line)) == line_ids(ls).push(n),
        parse_int(trimmed(line), true) is None ==> line_ids(ls.push(line)) == line_ids(ls),
{
    assert(ls.push(line).drop_last() =~= ls);
    crate::text::law_signed_decimal_reads_back(n as int);
}

/// An alert counts as delivered only where the sink ran and says so; a sink that did not run says
/// nothing. A flush is told of unless it had nothing to do. An alert goes to the sink with its severity
/// first, then its message, and with its own number.
pub proof fn law_an_alert_is_delivered_where_the_sink_says_so(
    run: Result<CmdOutput, String>,
    r: (bool, String),
    job: Job,
    args: (Vec<String>, Option<String>),
)
    requires
        call_ensures(alert_outcome, (&run,), r),
        call_ensures(sink_args, (&job,), args),
    ensures
        run is Err ==> !r.0 && r.1@.len() == 0,
        run matches Ok(o) ==> (r.0 <==> holds(o.stdout@, "delivered=1"@)),
        job matches Job::Alert { id, severity, message } ==> args.0@.len() == 2 && args.0@[0]@
            == severity@ && args.0@[1]@ == message@ && args.1 is Some && args.1->0@ == dec_int(
            id as int,
        ),
        job is Flush ==> args.1 is None && args.0@.len() == 1,
{
    assert(views(args.0@).len() == args.0@.len());
    if job is Alert {
        assert(views(args.0@)[0] == args.0@[0]@);
        assert(views(args.0@)[1] == args.0@[1]@);
    }
}

} // verus!
