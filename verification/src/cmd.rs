//! Running a program of this machine: one that is stuck is not started twice, none is waited for
//! without a limit, and none can fill the memory.

use crate::query::{lossy, lossy_text};
use crate::text::{chars_of, dec, dec_u64, string_of};
use vstd::prelude::*;
use vstd::string::*;
use vstd::utf8::{decode_utf8, valid_utf8};

verus! {

/// How many bytes of a program's output are kept.
pub const MAX_CAPTURE: usize = 8_388_608;

/// Whether a program that was started has not ended yet.
#[derive(Clone, Copy, PartialEq, Eq, Structural, Debug)]
pub struct Guard {
    pub busy: bool,
}

/// What a program that ended has said.
pub struct CmdOutput {
    pub stdout: String,
    pub stderr: String,
    pub success: bool,
}

/// What became of a program.
pub enum Ran {
    /// it could not be started: why
    NotStarted(String),
    Ended(CmdOutput),
    /// it did not end in this many seconds
    TimedOut(u64),
}

/// What is answered for a program, as values: its output, or the sentence.
pub open spec fn run_sentence(program: Seq<char>, ran: Ran) -> Option<Seq<char>> {
    match ran {
        Ran::NotStarted(e) => Some(program + ": "@ + e@),
        Ran::Ended(_) => None,
        Ran::TimedOut(secs) => Some(program + ": timed out after "@ + dec(secs as nat) + "s"@),
    }
}

impl Guard {
    /// Nothing runs.
    pub fn new() -> (r: Guard)
        ensures
            !r.busy,
    {
        Guard { busy: false }
    }

    /// Takes the guard for a start of `program`: refused while the one before is still stuck.
    pub fn enter(&mut self, program: &str) -> (r: Result<(), String>)
        ensures
            final(self).busy,
            old(self).busy ==> r is Err && r->Err_0@ == program@
                + ": previous invocation is still stuck"@,
            !old(self).busy ==> r is Ok,
    {
        if self.busy {
            let mut s = program.to_owned();
            s.append(": previous invocation is still stuck");
            return Err(s);
        }
        self.busy = true;
        Ok(())
    }

    /// The program has ended, or was never started.
    pub fn leave(&mut self)
        ensures
            !final(self).busy,
    {
        self.busy = false;
    }

    /// What is answered for a program that the guard was taken for. One that timed out keeps the
    /// guard until it ends.
    pub fn ended(&mut self, program: &str, ran: Ran) -> (r: Result<CmdOutput, String>)
        ensures
            match r {
                Ok(o) => ran == Ran::Ended(o),
                Err(e) => run_sentence(program@, ran) == Some(e@),
            },
            final(self).busy == (if ran is TimedOut {
                old(self).busy
            } else {
                false
            }),
    {
        match ran {
            Ran::NotStarted(e) => {
                self.leave();
                let mut s = program.to_owned();
                s.append(": ");
                s.append(e.as_str());
                Err(s)
            },
            Ran::Ended(o) => {
                self.leave();
                Ok(o)
            },
            Ran::TimedOut(secs) => {
                let mut s = program.to_owned();
                s.append(": timed out after ");
                s.append(dec_u64(secs).as_str());
                s.append("s");
                Err(s)
            },
        }
    }
}

/// What a run of a program comes to, whatever `ran` says became of it.
pub open spec fn run_outcome(
    busy: bool,
    program: Seq<char>,
    ran: Ran,
    r: Result<CmdOutput, String>,
) -> bool {
    if busy {
        r is Err && r->Err_0@ == program + ": previous invocation is still stuck"@
    } else {
        match r {
            Ok(o) => ran == Ran::Ended(o),
            Err(e) => run_sentence(program, ran) == Some(e@),
        }
    }
}

/// A whole run: refused while the program before is stuck (nothing is started then), else what
/// became of it.
pub fn run_env(guard: &mut Guard, program: &str, ran: Ran) -> (r: Result<CmdOutput, String>)
    ensures
        run_outcome(old(guard).busy, program@, ran, r),
        final(guard).busy == (old(guard).busy || ran is TimedOut),
{
    match guard.enter(program) {
        Err(e) => Err(e),
        Ok(_) => guard.ended(program, ran),
    }
}

/// A whole run with the environment as it is.
pub fn run(guard: &mut Guard, program: &str, ran: Ran) -> (r: Result<CmdOutput, String>)
    ensures
        run_outcome(old(guard).busy, program@, ran, r),
        final(guard).busy == (old(guard).busy || ran is TimedOut),
{
    run_env(guard, program, ran)
}

/// A program that did not end in time is not started again: every run after it is refused, whatever
/// would become of it, until the guard is left.
pub proof fn law_a_stuck_program_is_not_started_again(
    program: Seq<char>,
    ran: Ran,
    r: Result<CmdOutput, String>,
)
    requires
        run_outcome(true, program, ran, r),
    ensures
        r is Err,
{
}

/// The bytes of a program's output that are kept.
pub open spec fn kept_bytes(bytes: Seq<u8>) -> Seq<u8> {
    if bytes.len() <= MAX_CAPTURE {
        bytes
    } else {
        bytes.take(MAX_CAPTURE as int)
    }
}

/// What is kept of a program's output, which may be cut inside a character.
pub fn captured(bytes: &Vec<u8>) -> (r: String)
    ensures
        r@ == lossy_text(kept_bytes(bytes@)),
        valid_utf8(kept_bytes(bytes@)) ==> r@ == decode_utf8(kept_bytes(bytes@)),
{
    if bytes.len() <= MAX_CAPTURE {
        return lossy(bytes);
    }
    let mut cut: Vec<u8> = Vec::new();
    let mut i: usize = 0;
    while i < MAX_CAPTURE
        invariant
            i <= MAX_CAPTURE < bytes@.len(),
            cut@ == bytes@.take(i as int),
        decreases MAX_CAPTURE - i,
    {
        cut.push(bytes[i]);
        i += 1;
    }
    lossy(&cut)
}

// ---------------------------------------------------------------- line by line

/// How many lines of a program were read, and whether there were more.
#[derive(Clone, Copy, PartialEq, Eq, Structural, Debug)]
pub struct StreamStats {
    pub lines: usize,
    /// true when as many lines as may be were read, and the rest was not
    pub truncated: bool,
}

/// A text without the ends of line it ends with.
pub open spec fn without_eol(s: Seq<char>) -> Seq<char>
    decreases s.len(),
{
    if s.len() > 0 && (s.last() == '\n' || s.last() == '\r') {
        without_eol(s.drop_last())
    } else {
        s
    }
}

impl StreamStats {
    /// Nothing was read.
    pub fn new() -> (r: StreamStats)
        ensures
            r == (StreamStats { lines: 0, truncated: false }),
    {
        StreamStats { lines: 0, truncated: false }
    }

    /// A line has come: whether it is read. Where as many were as may be, it is not, and the program
    /// is stopped.
    pub fn takes_line(&mut self, max_lines: usize) -> (r: bool)
        ensures
            r == (old(self).lines < max_lines),
            *final(self) == (if r {
                StreamStats { lines: (old(self).lines + 1) as usize, ..*old(self) }
            } else {
                StreamStats { truncated: true, ..*old(self) }
            }),
    {
        if self.lines >= max_lines {
            self.truncated = true;
            return false;
        }
        self.lines = self.lines + 1;
        true
    }
}

/// What a read comes to in the end: an error past its limit, else how much was read.
pub fn stream_lines(program: &str, stats: StreamStats, timed_out: bool, secs: u64) -> (r: Result<
    StreamStats,
    String,
>)
    ensures
        !timed_out ==> r == Ok::<StreamStats, String>(stats),
        timed_out ==> r is Err && r->Err_0@ == program@ + ": timed out after "@ + dec(secs as nat)
            + "s ("@ + dec(stats.lines as nat) + " lines read)"@,
{
    if !timed_out {
        return Ok(stats);
    }
    let mut s = program.to_owned();
    s.append(": timed out after ");
    s.append(dec_u64(secs).as_str());
    s.append("s (");
    s.append(dec_u64(stats.lines as u64).as_str());
    s.append(" lines read)");
    Err(s)
}

/// The text of a line, without its end.
pub fn line_text(bytes: &Vec<u8>) -> (r: String)
    ensures
        r@ == without_eol(lossy_text(bytes@)),
        valid_utf8(bytes@) ==> r@ == without_eol(decode_utf8(bytes@)),
{
    let t = lossy(bytes);
    let v = chars_of(t.as_str());
    let mut to: usize = v.len();
    assert(v@.subrange(0, v@.len() as int) =~= v@);
    while to > 0 && (v[to - 1] == '\n' || v[to - 1] == '\r')
        invariant
            to <= v@.len(),
            without_eol(v@) == without_eol(v@.subrange(0, to as int)),
        decreases to,
    {
        assert(v@.subrange(0, to as int).drop_last() =~= v@.subrange(0, to - 1));
        to -= 1;
    }
    string_of(&v, 0, to)
}

/// What is read once `n` lines have come: never more than may be, and cut exactly where more came.
pub open spec fn stats_after(n: nat, max_lines: usize) -> StreamStats {
    StreamStats {
        lines: if n <= max_lines {
            n as usize
        } else {
            max_lines
        },
        truncated: n > max_lines,
    }
}

/// However many lines come, no more than `max_lines` are read, and the read is cut exactly where
/// more came: each line that comes moves what is read after `n` lines to what is read after `n + 1`.
pub proof fn law_stream_is_capped(n: nat, max_lines: usize)
    ensures
        ({
            let before = stats_after(n, max_lines);
            let taken = before.lines < max_lines;
            let after = if taken {
                StreamStats { lines: (before.lines + 1) as usize, ..before }
            } else {
                StreamStats { truncated: true, ..before }
            };
            &&& after == stats_after(n + 1, max_lines)
            &&& after.lines <= max_lines
            &&& stats_after(0, max_lines) == (StreamStats { lines: 0, truncated: false })
        }),
{
}

/// A program that ended gives its own output, and only such a one gives any; while the one before is
/// stuck nothing is given. What went wrong names the program, and after a time limit the seconds.
pub proof fn law_only_a_program_that_ended_has_output(
    busy: bool,
    program: Seq<char>,
    ran: Ran,
    r: Result<CmdOutput, String>,
)
    requires
        run_outcome(busy, program, ran, r),
    ensures
        r is Ok <==> !busy && ran is Ended,
        r matches Ok(o) ==> ran == Ran::Ended(o),
        r matches Err(e) ==> crate::text::starts(e@, program + ": "@),
        r matches Err(e) ==> (!busy ==> match ran {
            Ran::NotStarted(why) => crate::text::ends(e@, why@),
            Ran::TimedOut(secs) => crate::text::holds(e@, "timed out after "@ + dec(secs as nat) + "s"@),
            Ran::Ended(_) => false,
        }),
{
    if let Err(e) = r {
        if busy {
            reveal_strlit(": previous invocation is still stuck");
            reveal_strlit(": ");
            assert(e@.take((program + ": "@).len() as int) =~= program + ": "@);
        } else {
            match ran {
                Ran::NotStarted(why) => {
                    assert(e@.take((program + ": "@).len() as int) =~= program + ": "@);
                    assert(e@.skip(e@.len() - why@.len()) =~= why@);
                },
                Ran::TimedOut(secs) => {
                    reveal_strlit(": timed out after ");
                    reveal_strlit("timed out after ");
                    reveal_strlit(": ");
                    let d = dec(secs as nat);
                    assert(e@.take((program + ": "@).len() as int) =~= program + ": "@);
                    let part = "timed out after "@ + d + "s"@;
                    let none = Seq::<char>::empty();
                    assert(e@ =~= (program + ": "@) + part + none);
                    crate::text::lemma_stands_between(program + ": "@, part, none);
                },
                Ran::Ended(_) => {},
            }
        }
    }
}

/// What is kept of an output is its beginning: all of it where it is not too much, else as much as is
/// kept at most.
pub proof fn law_the_beginning_of_an_output_is_kept(bytes: Seq<u8>, more: Seq<u8>)
    ensures
        kept_bytes(bytes).len() <= 8_388_608,
        bytes.len() <= 8_388_608 ==> kept_bytes(bytes) == bytes,
        bytes.len() >= 8_388_608 ==> kept_bytes(bytes + more) == kept_bytes(bytes),
        kept_bytes(bytes) == bytes.take(kept_bytes(bytes).len() as int),
{
    if bytes.len() >= 8_388_608 {
        assert((bytes + more).take(8_388_608) =~= bytes.take(8_388_608));
        assert(bytes.take(bytes.len() as int) =~= bytes);
        assert(kept_bytes(bytes) =~= bytes.take(8_388_608));
        assert(kept_bytes(bytes + more) =~= (bytes + more).take(8_388_608));
    }
    assert(kept_bytes(bytes) =~= bytes.take(kept_bytes(bytes).len() as int));
}

/// The text of a line is what stands before its end: nothing but ends of line is cut off, and none is
/// left.
pub proof fn law_a_line_loses_only_its_end(s: Seq<char>)
    ensures
        without_eol(s).len() <= s.len(),
        without_eol(s) == s.take(without_eol(s).len() as int),
        forall|i: int|
            without_eol(s).len() <= i < s.len() ==> #[trigger] s[i] == '\n' || s[i] == '\r',
        without_eol(s).len() > 0 ==> without_eol(s).last() != '\n' && without_eol(s).last() != '\r',
    decreases s.len(),
{
    if s.len() > 0 && (s.last() == '\n' || s.last() == '\r') {
        let rest = s.drop_last();
        law_a_line_loses_only_its_end(rest);
        assert(without_eol(s) =~= s.take(without_eol(s).len() as int));
        assert forall|i: int| without_eol(s).len() <= i < s.len() implies #[trigger] s[i] == '\n' || s[i]
            == '\r' by {
            if i < rest.len() {
                assert(rest[i] == s[i]);
            }
        }
    } else {
        assert(s.take(s.len() as int) =~= s);
    }
}

} // verus!
