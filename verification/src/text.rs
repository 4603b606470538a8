//! Text as sequences of characters: what the other modules read and write.

use vstd::prelude::*;
use vstd::string::*;

verus! {

/// `String::push`: the character is appended at the end.
pub assume_specification[ String::push ](s: &mut String, c: char)
    ensures
        final(s)@ == old(s)@.push(c),
;

/// What the strings of a list hold.
pub open spec fn views(v: Seq<String>) -> Seq<Seq<char>> {
    v.map_values(|s: String| s@)
}

/// What an optional string holds.
pub open spec fn opt_view(s: Option<String>) -> Option<Seq<char>> {
    match s {
        Some(t) => Some(t@),
        None => None,
    }
}

/// The characters of `s`, in order.
pub fn chars_of(s: &str) -> (v: Vec<char>)
    ensures
        v@ == s@,
{
    let mut v: Vec<char> = Vec::new();
    for c in it: s.chars()
        invariant
            v@ == it.seq().take(it.index() as int),
            it.seq() == s@,
    {
        v.push(c);
    }
    v
}

/// The string of the characters `v[from..to]`.
pub fn string_of(v: &Vec<char>, from: usize, to: usize) -> (s: String)
    requires
        from <= to <= v@.len(),
    ensures
        s@ == v@.subrange(from as int, to as int),
{
    let mut s = String::new();
    let mut i: usize = from;
    while i < to
        invariant
            from <= i <= to <= v@.len(),
            s@ == v@.subrange(from as int, i as int),
        decreases to - i,
    {
        s.push(v[i]);
        i += 1;
    }
    s
}

/// Whether two strings hold the same characters.
pub fn same(a: &str, b: &str) -> (r: bool)
    ensures
        r == (a@ == b@),
{
    a.to_owned() == b.to_owned()
}

// ---------------------------------------------------------------- whitespace

/// The characters with the Unicode property `White_Space`.
pub open spec fn white_space(c: char) -> bool {
    ||| '\u{9}' <= c <= '\u{d}'
    ||| c == ' '
    ||| c == '\u{85}'
    ||| c == '\u{a0}'
    ||| c == '\u{1680}'
    ||| '\u{2000}' <= c <= '\u{200a}'
    ||| c == '\u{2028}'
    ||| c == '\u{2029}'
    ||| c == '\u{202f}'
    ||| c == '\u{205f}'
    ||| c == '\u{3000}'
}

/// Whether `c` is white space.
pub fn is_white_space(c: char) -> (r: bool)
    ensures
        r == white_space(c),
{
    ('\u{9}' <= c && c <= '\u{d}') || c == ' ' || c == '\u{85}' || c == '\u{a0}' || c == '\u{1680}'
        || ('\u{2000}' <= c && c <= '\u{200a}') || c == '\u{2028}' || c == '\u{2029}' || c
        == '\u{202f}' || c == '\u{205f}' || c == '\u{3000}'
}

/// `s` without the white space it starts with.
pub open spec fn trim_start(s: Seq<char>) -> Seq<char>
    decreases s.len(),
{
    if s.len() > 0 && white_space(s[0]) {
        trim_start(s.drop_first())
    } else {
        s
    }
}

/// `s` without the white space it ends with.
pub open spec fn trim_end(s: Seq<char>) -> Seq<char>
    decreases s.len(),
{
    if s.len() > 0 && white_space(s.last()) {
        trim_end(s.drop_last())
    } else {
        s
    }
}

/// `s` without the white space at both ends.
pub open spec fn trimmed(s: Seq<char>) -> Seq<char> {
    trim_end(trim_start(s))
}

/// What is cut off a text at its two ends when it is trimmed.
pub open spec fn trimmed_ends(s: Seq<char>) -> (Seq<char>, Seq<char>) {
    let from = s.len() - trim_start(s).len();
    (s.take(from), s.skip(from + trimmed(s).len()))
}

/// To trim a text is to cut off white space at its two ends, all of it, and nothing else.
pub proof fn law_trimming_takes_only_the_ends(s: Seq<char>)
    ensures
        s == trimmed_ends(s).0 + trimmed(s) + trimmed_ends(s).1,
        forall|i: int|
            0 <= i < trimmed_ends(s).0.len() ==> white_space(#[trigger] trimmed_ends(s).0[i]),
        forall|i: int|
            0 <= i < trimmed_ends(s).1.len() ==> white_space(#[trigger] trimmed_ends(s).1[i]),
        trimmed(s).len() > 0 ==> !white_space(trimmed(s)[0]) && !white_space(trimmed(s).last()),
{
    lemma_trim_start_is(s);
    let t = trim_start(s);
    lemma_trim_end_is(t);
    let from = s.len() - t.len();
    assert(trimmed(s) =~= t.take(trimmed(s).len() as int));
    assert(s =~= trimmed_ends(s).0 + trimmed(s) + trimmed_ends(s).1);
    assert forall|i: int| 0 <= i < trimmed_ends(s).1.len() implies white_space(
        #[trigger] trimmed_ends(s).1[i],
    ) by {
        assert(trimmed_ends(s).1[i] == t[trimmed(s).len() + i]);
    }
}

proof fn lemma_trim_start_is(s: Seq<char>)
    ensures
        trim_start(s).len() <= s.len(),
        trim_start(s) == s.skip(s.len() - trim_start(s).len()),
        forall|i: int| 0 <= i < s.len() - trim_start(s).len() ==> white_space(#[trigger] s[i]),
        trim_start(s).len() > 0 ==> !white_space(trim_start(s)[0]),
    decreases s.len(),
{
    if s.len() > 0 && white_space(s[0]) {
        let rest = s.drop_first();
        lemma_trim_start_is(rest);
        assert(trim_start(s) =~= s.skip(s.len() - trim_start(s).len()));
        assert forall|i: int| 0 <= i < s.len() - trim_start(s).len() implies white_space(
            #[trigger] s[i],
        ) by {
            if i > 0 {
                assert(s[i] == rest[i - 1]);
            }
        }
    } else {
        assert(s.skip(0) =~= s);
    }
}

proof fn lemma_trim_end_is(s: Seq<char>)
    ensures
        trim_end(s).len() <= s.len(),
        trim_end(s) == s.take(trim_end(s).len() as int),
        forall|i: int| trim_end(s).len() <= i < s.len() ==> white_space(#[trigger] s[i]),
        trim_end(s).len() > 0 ==> !white_space(trim_end(s).last()),
    decreases s.len(),
{
    if s.len() > 0 && white_space(s.last()) {
        let rest = s.drop_last();
        lemma_trim_end_is(rest);
        assert(trim_end(s) =~= s.take(trim_end(s).len() as int));
        assert forall|i: int| trim_end(s).len() <= i < s.len() implies white_space(
            #[trigger] s[i],
        ) by {
            if i < rest.len() {
                assert(s[i] == rest[i]);
            }
        }
    } else {
        assert(s.take(s.len() as int) =~= s);
    }
}

/// `s` without the white space at both ends.
pub fn trim(s: &str) -> (r: String)
    ensures
        r@ == trimmed(s@),
{
    let v = chars_of(s);
    let mut from: usize = 0;
    assert(v@.subrange(0, v@.len() as int) =~= v@);
    while from < v.len() && is_white_space(v[from])
        invariant
            from <= v@.len(),
            v@ == s@,
            trim_start(s@) == trim_start(v@.subrange(from as int, v@.len() as int)),
        decreases v@.len() - from,
    {
        assert(v@.subrange(from as int, v@.len() as int).drop_first() =~= v@.subrange(
            from + 1,
            v@.len() as int,
        ));
        from += 1;
    }
    let ghost rest = v@.subrange(from as int, v@.len() as int);
    assert(trim_start(s@) == rest);
    let mut to: usize = v.len();
    while to > from && is_white_space(v[to - 1])
        invariant
            from <= to <= v@.len(),
            trim_end(rest) == trim_end(v@.subrange(from as int, to as int)),
        decreases to,
    {
        assert(v@.subrange(from as int, to as int).drop_last() =~= v@.subrange(
            from as int,
            to - 1,
        ));
        to -= 1;
    }
    string_of(&v, from, to)
}

/// `s` without the slashes it ends with.
pub open spec fn without_end_slashes(s: Seq<char>) -> Seq<char>
    decreases s.len(),
{
    if s.len() > 0 && s.last() == '/' {
        without_end_slashes(s.drop_last())
    } else {
        s
    }
}

/// `s` without the slashes it ends with.
pub fn trim_end_slashes(s: &str) -> (r: String)
    ensures
        r@ == without_end_slashes(s@),
{
    let v = chars_of(s);
    let mut to: usize = v.len();
    assert(v@.subrange(0, v@.len() as int) =~= v@);
    while to > 0 && v[to - 1] == '/'
        invariant
            to <= v@.len(),
            without_end_slashes(s@) == without_end_slashes(v@.subrange(0, to as int)),
        decreases to,
    {
        assert(v@.subrange(0, to as int).drop_last() =~= v@.subrange(0, to - 1));
        to -= 1;
    }
    string_of(&v, 0, to)
}

// ------------------------------------------------------------------- numbers

/// The decimal digit of `d`, for `d` under ten.
pub open spec fn digit(d: nat) -> char {
    (48 + d) as u8 as char
}

/// `n` in decimal.
pub open spec fn dec(n: nat) -> Seq<char>
    decreases n,
{
    if n < 10 {
        seq![digit(n)]
    } else {
        dec(n / 10).push(digit(n % 10))
    }
}

/// `n` in decimal, with a minus sign where it is negative.
pub open spec fn dec_int(n: int) -> Seq<char> {
    if n < 0 {
        seq!['-'] + dec((-n) as nat)
    } else {
        dec(n as nat)
    }
}

/// `n` in decimal.
pub fn dec_u64(n: u64) -> (s: String)
    ensures
        s@ == dec(n as nat),
    decreases n,
{
    if n < 10 {
        let mut s = String::new();
        s.push((48 + n as u8) as char);
        s
    } else {
        let mut s = dec_u64(n / 10);
        s.push((48 + (n % 10) as u8) as char);
        s
    }
}

/// `n` in decimal, with a minus sign where it is negative.
pub fn dec_i64(n: i64) -> (s: String)
    ensures
        s@ == dec_int(n as int),
{
    if n < 0 {
        let m: u64 = (-(n as i128)) as u64;
        let mut s = String::new();
        s.push('-');
        s.append(dec_u64(m).as_str());
        s
    } else {
        dec_u64(n as u64)
    }
}

/// Whether `c` is one of the ASCII digits.
pub open spec fn is_digit(c: char) -> bool {
    '0' <= c <= '9'
}

/// Whether `s` is one or more ASCII digits.
pub open spec fn all_digits(s: Seq<char>) -> bool {
    s.len() > 0 && forall|i: int| 0 <= i < s.len() ==> #[trigger] is_digit(s[i])
}

/// The number that the digits `s` write.
pub open spec fn value(s: Seq<char>) -> nat
    decreases s.len(),
{
    if s.len() == 0 {
        0
    } else {
        value(s.drop_last()) * 10 + (s.last() as nat - 48) as nat
    }
}

/// The integer that `s` writes: digits behind at most one sign. A minus sign is taken only where
/// `signed` is set.
pub open spec fn parse_int(s: Seq<char>, signed: bool) -> Option<int> {
    if s.len() > 0 && s[0] == '-' && signed && all_digits(s.drop_first()) {
        Some(-(value(s.drop_first()) as int))
    } else if s.len() > 0 && s[0] == '+' && all_digits(s.drop_first()) {
        Some(value(s.drop_first()) as int)
    } else if all_digits(s) {
        Some(value(s) as int)
    } else {
        None
    }
}

/// A number in decimal is digits, has no leading zero but for zero itself, and reads back as the number.
pub proof fn law_decimal_reads_back(n: nat)
    ensures
        all_digits(dec(n)),
        value(dec(n)) == n,
        parse_int(dec(n), true) == Some(n as int),
        parse_int(dec(n), false) == Some(n as int),
        dec(n)[0] == '0' ==> n == 0,
    decreases n,
{
    if n >= 10 {
        law_decimal_reads_back(n / 10);
        assert(dec(n).drop_last() =~= dec(n / 10));
        assert(dec(n)[0] == dec(n / 10)[0]);
        assert forall|i: int| 0 <= i < dec(n).len() implies #[trigger] is_digit(dec(n)[i]) by {
            if i < dec(n / 10).len() {
                assert(is_digit(dec(n / 10)[i]));
            }
        }
    } else {
        reveal_with_fuel(value, 2);
        assert(dec(n).drop_last() =~= Seq::<char>::empty());
    }
    assert(is_digit(dec(n)[0]));
}

/// A whole number in decimal reads back as the number, its sign too.
pub proof fn law_signed_decimal_reads_back(n: int)
    ensures
        parse_int(dec_int(n), true) == Some(n),
        n < 0 ==> parse_int(dec_int(n), false) is None,
{
    if n < 0 {
        law_decimal_reads_back((-n) as nat);
        assert(dec_int(n).drop_first() =~= dec((-n) as nat));
        assert(!is_digit(dec_int(n)[0]));
    } else {
        law_decimal_reads_back(n as nat);
    }
}

/// The number that the digits `v[from..]` write: `None` where they are not one or more digits or
/// the number does not fit.
fn magnitude(v: &Vec<char>, from: usize) -> (r: Option<u64>)
    requires
        from <= v@.len(),
    ensures
        r == ({
            let s = v@.subrange(from as int, v@.len() as int);
            if all_digits(s) && value(s) <= u64::MAX {
                Some(value(s) as u64)
            } else {
                None::<u64>
            }
        }),
{
    let ghost s = v@.subrange(from as int, v@.len() as int);
    if from == v.len() {
        return None;
    }
    let mut acc: u64 = 0;
    let mut over = false;
    let mut i: usize = from;
    while i < v.len()
        invariant
            from <= i <= v@.len(),
            s == v@.subrange(from as int, v@.len() as int),
            forall|j: int| 0 <= j < i - from ==> #[trigger] is_digit(s[j]),
            over ==> value(s.take(i - from)) > u64::MAX,
            !over ==> acc == value(s.take(i - from)),
        decreases v@.len() - i,
    {
        let c = v[i];
        assert(s[i - from] == c);
        if !('0' <= c && c <= '9') {
            assert(!is_digit(s[i - from]));
            return None;
        }
        proof {
            assert(s.take(i - from + 1).drop_last() =~= s.take(i - from));
            assert(s.take(i - from + 1).last() == c);
        }
        if !over {
            let next: u128 = acc as u128 * 10 + (c as u128 - 48);
            if next > u64::MAX as u128 {
                over = true;
            } else {
                acc = next as u64;
            }
        }
        i += 1;
    }
    assert(s.take(s.len() as int) =~= s);
    if over {
        None
    } else {
        Some(acc)
    }
}

/// The `u64` that `s` writes, if it writes one.
pub fn parse_u64(s: &str) -> (r: Option<u64>)
    ensures
        r == (match parse_int(s@, false) {
            Some(n) if n <= u64::MAX => Some(n as u64),
            _ => None,
        }),
{
    let v = chars_of(s);
    assert(v@.subrange(0, v@.len() as int) =~= v@);
    if v.len() > 0 && v[0] == '+' {
        assert(v@.subrange(1, v@.len() as int) =~= v@.drop_first());
        assert(!is_digit(v@[0]));
        return magnitude(&v, 1);
    }
    magnitude(&v, 0)
}

/// The `i64` that `s` writes, if it writes one.
pub fn parse_i64(s: &str) -> (r: Option<i64>)
    ensures
        r == (match parse_int(s@, true) {
            Some(n) if i64::MIN <= n <= i64::MAX => Some(n as i64),
            _ => None,
        }),
{
    let v = chars_of(s);
    assert(v@.subrange(0, v@.len() as int) =~= v@);
    if v.len() > 0 && (v[0] == '+' || v[0] == '-') {
        assert(v@.subrange(1, v@.len() as int) =~= v@.drop_first());
        assert(!is_digit(v@[0]));
        let minus = v[0] == '-';
        return match magnitude(&v, 1) {
            Some(m) => if minus {
                if m <= 9223372036854775808 {
                    Some((-(m as i128)) as i64)
                } else {
                    None
                }
            } else if m <= 9223372036854775807 {
                Some(m as i64)
            } else {
                None
            },
            None => None,
        };
    }
    match magnitude(&v, 0) {
        Some(m) => if m <= 9223372036854775807 {
            Some(m as i64)
        } else {
            None
        },
        None => None,
    }
}

// ----------------------------------------------------------------- searching

/// Whether `s` starts with `p`.
pub open spec fn starts(s: Seq<char>, p: Seq<char>) -> bool {
    p.len() <= s.len() && s.take(p.len() as int) == p
}

/// Whether `s` ends with `p`.
pub open spec fn ends(s: Seq<char>, p: Seq<char>) -> bool {
    p.len() <= s.len() && s.skip(s.len() - p.len()) == p
}

/// Whether `p` stands in `s` at `i`.
pub open spec fn stands_at(s: Seq<char>, p: Seq<char>, i: int) -> bool {
    0 <= i && i + p.len() <= s.len() && s.subrange(i, i + p.len()) == p
}

/// Whether `p` stands somewhere in `s`.
pub open spec fn holds(s: Seq<char>, p: Seq<char>) -> bool {
    exists|i: int| stands_at(s, p, i)
}

/// A text that stands between two others stands in the whole.
pub proof fn lemma_stands_between(a: Seq<char>, p: Seq<char>, b: Seq<char>)
    ensures
        holds(a + p + b, p),
{
    let s = a + p + b;
    assert(s.subrange(a.len() as int, (a.len() + p.len()) as int) =~= p);
    assert(stands_at(s, p, a.len() as int));
}

/// The first index of `c` in `s`, or the length of `s` where it is not there.
pub open spec fn first_index(s: Seq<char>, c: char) -> int
    decreases s.len(),
{
    if s.len() == 0 || s[0] == c {
        0
    } else {
        1 + first_index(s.drop_first(), c)
    }
}

/// `first_index` is the first place of the character.
pub proof fn lemma_first_index(s: Seq<char>, c: char)
    ensures
        0 <= first_index(s, c) <= s.len(),
        first_index(s, c) < s.len() ==> s[first_index(s, c)] == c,
        forall|j: int| 0 <= j < first_index(s, c) ==> s[j] != c,
    decreases s.len(),
{
    if s.len() > 0 && s[0] != c {
        lemma_first_index(s.drop_first(), c);
        assert forall|j: int| 0 <= j < first_index(s, c) implies s[j] != c by {
            if j > 0 {
                assert(s[j] == s.drop_first()[j - 1]);
            }
        }
    }
}

/// The only index that can be `first_index`.
pub proof fn lemma_first_index_is(s: Seq<char>, c: char, i: int)
    requires
        0 <= i <= s.len(),
        i < s.len() ==> s[i] == c,
        forall|j: int| 0 <= j < i ==> s[j] != c,
    ensures
        first_index(s, c) == i,
{
    lemma_first_index(s, c);
}

/// The first index of `c` in `v` from `from` on, or the length of `v`.
pub fn find_from(v: &Vec<char>, c: char, from: usize) -> (i: usize)
    requires
        from <= v@.len(),
    ensures
        from <= i <= v@.len(),
        i - from == first_index(v@.skip(from as int), c),
{
    let mut i: usize = from;
    while i < v.len() && v[i] != c
        invariant
            from <= i <= v@.len(),
            forall|j: int| from <= j < i ==> v@[j] != c,
        decreases v@.len() - i,
    {
        i += 1;
    }
    proof {
        lemma_first_index_is(v@.skip(from as int), c, i - from);
    }
    i
}

/// Whether the characters of `p` stand in `v` at `at`.
pub fn matches_at(v: &Vec<char>, p: &Vec<char>, at: usize) -> (r: bool)
    requires
        at <= v@.len(),
    ensures
        r == stands_at(v@, p@, at as int),
{
    if p.len() > v.len() - at {
        return false;
    }
    let mut i: usize = 0;
    while i < p.len()
        invariant
            i <= p@.len(),
            at + p@.len() <= v.len(),
            v@.subrange(at as int, at + i) == p@.take(i as int),
        decreases p@.len() - i,
    {
        if v[at + i] != p[i] {
            assert(v@.subrange(at as int, at + p@.len())[i as int] != p@[i as int]);
            return false;
        }
        assert(v@.subrange(at as int, at + i + 1) =~= v@.subrange(at as int, at + i).push(
            v@[at + i],
        ));
        assert(p@.take(i + 1) =~= p@.take(i as int).push(p@[i as int]));
        i += 1;
    }
    assert(p@.take(p@.len() as int) =~= p@);
    true
}

/// Whether `s` starts with `p`.
pub fn starts_with(s: &str, p: &str) -> (r: bool)
    ensures
        r == starts(s@, p@),
{
    let v = chars_of(s);
    let q = chars_of(p);
    proof {
        if q@.len() <= v@.len() {
            assert(v@.subrange(0, q@.len() as int) =~= v@.take(q@.len() as int));
        }
    }
    matches_at(&v, &q, 0)
}

/// Whether `s` ends with `p`.
pub fn ends_with(s: &str, p: &str) -> (r: bool)
    ensures
        r == ends(s@, p@),
{
    let v = chars_of(s);
    let q = chars_of(p);
    if q.len() > v.len() {
        return false;
    }
    let at: usize = v.len() - q.len();
    assert(v@.subrange(at as int, at + q@.len()) =~= v@.skip(at as int));
    matches_at(&v, &q, at)
}

/// Whether `p` stands somewhere in `s`.
pub fn contains(s: &str, p: &str) -> (r: bool)
    ensures
        r == holds(s@, p@),
{
    let v = chars_of(s);
    let q = chars_of(p);
    let mut i: usize = 0;
    loop
        invariant
            i <= v@.len(),
            v@ == s@,
            q@ == p@,
            forall|j: int| 0 <= j < i ==> !stands_at(v@, q@, j),
        decreases v@.len() + 1 - i,
    {
        if matches_at(&v, &q, i) {
            return true;
        }
        if i == v.len() {
            return false;
        }
        i += 1;
    }
}

// ------------------------------------------------------- splitting and joining

/// The parts of `s` between the characters `c`.
pub open spec fn split_on(s: Seq<char>, c: char) -> Seq<Seq<char>>
    decreases s.len(),
    via split_on_shorter
{
    let i = first_index(s, c);
    if i >= s.len() {
        seq![s]
    } else {
        seq![s.take(i)] + split_on(s.skip(i + 1), c)
    }
}

#[via_fn]
proof fn split_on_shorter(s: Seq<char>, c: char) {
    lemma_first_index(s, c);
}

/// The parts of `s` between the characters `c`.
pub fn split(s: &str, c: char) -> (r: Vec<String>)
    ensures
        views(r@) == split_on(s@, c),
{
    let v = chars_of(s);
    let mut out: Vec<String> = Vec::new();
    let mut from: usize = 0;
    assert(v@.skip(0) =~= v@);
    assert(views(out@) + split_on(v@, c) =~= split_on(v@, c));
    loop
        invariant_except_break
            from <= v@.len(),
            views(out@) + split_on(v@.skip(from as int), c) == split_on(s@, c),
        ensures
            views(out@) == split_on(s@, c),
        decreases v@.len() - from,
    {
        let i: usize = find_from(&v, c, from);
        let ghost rest = v@.skip(from as int);
        let ghost before = views(out@);
        let part = string_of(&v, from, i);
        assert(part@ =~= rest.take(i - from));
        out.push(part);
        assert(views(out@) =~= before.push(part@));
        if i == v.len() {
            assert(rest.take(i - from) =~= rest);
            assert(before + seq![rest] =~= before.push(part@));
            break ;
        }
        proof {
            assert(rest.skip(i - from + 1) =~= v@.skip(i + 1));
            assert(before + (seq![part@] + split_on(v@.skip(i + 1), c)) =~= before.push(part@)
                + split_on(v@.skip(i + 1), c));
        }
        from = i + 1;
    }
    out
}

/// The parts with `sep` between each and the next.
pub open spec fn joined(parts: Seq<Seq<char>>, sep: Seq<char>) -> Seq<char>
    decreases parts.len(),
{
    if parts.len() == 0 {
        Seq::empty()
    } else if parts.len() == 1 {
        parts[0]
    } else {
        joined(parts.drop_last(), sep) + sep + parts.last()
    }
}

/// Parts joined are the first, the separator, and the rest joined.
pub proof fn lemma_joined_front(a: Seq<char>, rest: Seq<Seq<char>>, sep: Seq<char>)
    requires
        rest.len() > 0,
    ensures
        joined(seq![a] + rest, sep) == a + sep + joined(rest, sep),
    decreases rest.len(),
{
    let all = seq![a] + rest;
    assert(all.last() == rest.last());
    assert(all.drop_last() =~= seq![a] + rest.drop_last());
    if rest.len() == 1 {
        assert(all.drop_last() =~= seq![a]);
        assert(joined(all.drop_last(), sep) =~= a);
    } else {
        lemma_joined_front(a, rest.drop_last(), sep);
        assert(joined(all, sep) =~= a + sep + joined(rest, sep));
    }
}

/// The parts of a text, joined by what it was split at, are the text; none of them holds it, and there
/// is one part more than separators.
pub proof fn law_what_is_split_can_be_joined(s: Seq<char>, c: char)
    ensures
        joined(split_on(s, c), seq![c]) == s,
        split_on(s, c).len() > 0,
        forall|i: int| 0 <= i < split_on(s, c).len() ==> !(#[trigger] split_on(s, c)[i]).contains(c),
    decreases s.len(),
{
    lemma_first_index(s, c);
    let i = first_index(s, c);
    if i >= s.len() {
        assert(joined(seq![s], seq![c]) == s);
    } else {
        let rest = split_on(s.skip(i + 1), c);
        law_what_is_split_can_be_joined(s.skip(i + 1), c);
        lemma_joined_front(s.take(i), rest, seq![c]);
        assert(s.take(i) + seq![c] + s.skip(i + 1) =~= s);
        assert forall|k: int| 0 <= k < split_on(s, c).len() implies !(#[trigger] split_on(
            s,
            c,
        )[k]).contains(c) by {
            if k > 0 {
                assert(split_on(s, c)[k] == rest[k - 1]);
            }
        }
    }
}

/// The parts with `sep` between each and the next.
pub fn join(parts: &Vec<String>, sep: &str) -> (r: String)
    ensures
        r@ == joined(views(parts@), sep@),
{
    let mut out = String::new();
    let mut i: usize = 0;
    while i < parts.len()
        invariant
            i <= parts@.len(),
            out@ == joined(views(parts@).take(i as int), sep@),
        decreases parts@.len() - i,
    {
        proof {
            let all = views(parts@);
            assert(all.take(i + 1).drop_last() =~= all.take(i as int));
            assert(all.take(i + 1).last() == parts@[i as int]@);
            assert(Seq::<char>::empty() + parts@[i as int]@ =~= parts@[i as int]@);
        }
        if i > 0 {
            out.append(sep);
        }
        out.append(parts[i].as_str());
        i += 1;
    }
    assert(views(parts@).take(parts@.len() as int) =~= views(parts@));
    out
}

/// The first `n` characters of `s`, or all of them where it has fewer.
pub open spec fn head(s: Seq<char>, n: nat) -> Seq<char> {
    if s.len() <= n {
        s
    } else {
        s.take(n as int)
    }
}

/// The first `n` characters of `s`, or all of them where it has fewer.
pub fn take(s: &str, n: usize) -> (r: String)
    ensures
        r@ == head(s@, n as nat),
{
    let v = chars_of(s);
    let to: usize = if v.len() <= n {
        v.len()
    } else {
        n
    };
    proof {
        assert(v@.subrange(0, v@.len() as int) =~= v@);
        if v@.len() > n {
            assert(v@.subrange(0, n as int) =~= v@.take(n as int));
        }
    }
    string_of(&v, 0, to)
}

/// An ASCII capital as the small letter; any other character as it is.
pub open spec fn small(c: char) -> char {
    if 'A' <= c <= 'Z' {
        (c as u8 + 32) as u8 as char
    } else {
        c
    }
}

/// `s` with its ASCII capitals as small letters.
pub open spec fn lowered(s: Seq<char>) -> Seq<char> {
    s.map_values(|c: char| small(c))
}

/// `s` with its ASCII capitals as small letters.
pub fn lower(s: &str) -> (r: String)
    ensures
        r@ == lowered(s@),
{
    let v = chars_of(s);
    let mut out = String::new();
    let mut i: usize = 0;
    while i < v.len()
        invariant
            i <= v@.len(),
            v@ == s@,
            out@ == lowered(s@.take(i as int)),
        decreases v@.len() - i,
    {
        let c = v[i];
        let d = if 'A' <= c && c <= 'Z' {
            (c as u8 + 32) as char
        } else {
            c
        };
        out.push(d);
        assert(out@ =~= lowered(s@.take(i + 1)));
        i += 1;
    }
    assert(s@.take(s@.len() as int) =~= s@);
    out
}

/// The first place of `p` in `s` from `i` on, or -1.
pub open spec fn first_at(s: Seq<char>, p: Seq<char>, i: int) -> int
    decreases s.len() + 1 - i,
{
    if i < 0 || i + p.len() > s.len() {
        -1
    } else if stands_at(s, p, i) {
        i
    } else {
        first_at(s, p, i + 1)
    }
}

/// `first_at` is the first place of the text from `i` on.
pub proof fn lemma_first_at(s: Seq<char>, p: Seq<char>, i: int)
    requires
        0 <= i,
    ensures
        first_at(s, p, i) == -1 || (i <= first_at(s, p, i) && stands_at(s, p, first_at(s, p, i))),
        forall|j: int|
            i <= j && (first_at(s, p, i) == -1 || j < first_at(s, p, i)) ==> !#[trigger] stands_at(
                s,
                p,
                j,
            ),
    decreases s.len() + 1 - i,
{
    if i + p.len() <= s.len() && !stands_at(s, p, i) {
        lemma_first_at(s, p, i + 1);
    }
}

/// The last place of `p` in `s` up to `i`, or -1.
pub open spec fn last_at(s: Seq<char>, p: Seq<char>, i: int) -> int
    decreases i + 1,
{
    if i < 0 {
        -1
    } else if stands_at(s, p, i) {
        i
    } else {
        last_at(s, p, i - 1)
    }
}

/// The first place of `p` in `v` from `from` on.
pub fn find_text(v: &Vec<char>, p: &Vec<char>, from: usize) -> (r: Option<usize>)
    requires
        from <= v@.len(),
    ensures
        match r {
            Some(i) => i == first_at(v@, p@, from as int) && from <= i && i + p@.len() <= v@.len(),
            None => first_at(v@, p@, from as int) == -1,
        },
{
    let mut i: usize = from;
    loop
        invariant
            from <= i <= v@.len(),
            first_at(v@, p@, from as int) == first_at(v@, p@, i as int),
        decreases v@.len() - i,
    {
        if p.len() > v.len() - i {
            return None;
        }
        if matches_at(v, p, i) {
            return Some(i);
        }
        if i == v.len() {
            reveal_with_fuel(first_at, 2);
            return None;
        }
        i += 1;
    }
}

/// What stands behind the last `p` in `s`, or `s` where there is none.
pub open spec fn after_last(s: Seq<char>, p: Seq<char>) -> Seq<char> {
    let i = last_at(s, p, s.len() - p.len());
    if i < 0 {
        s
    } else {
        s.skip(i + p.len())
    }
}

/// What stands behind the last `p` in `s`, or `s` where there is none.
pub fn behind_last(s: &str, p: &str) -> (r: String)
    ensures
        r@ == after_last(s@, p@),
{
    let v = chars_of(s);
    let q = chars_of(p);
    assert(v@.subrange(0, v@.len() as int) =~= v@);
    if q.len() > v.len() {
        return string_of(&v, 0, v.len());
    }
    let mut i: usize = v.len() - q.len();
    loop
        invariant
            i + q@.len() <= v.len(),
            v@ == s@,
            q@ == p@,
            last_at(s@, p@, s@.len() - p@.len()) == last_at(s@, p@, i as int),
        decreases i,
    {
        if matches_at(&v, &q, i) {
            let from: usize = i + q.len();
            assert(v@.subrange(from as int, v@.len() as int) =~= v@.skip(from as int));
            return string_of(&v, from, v.len());
        }
        if i == 0 {
            reveal_with_fuel(last_at, 2);
            assert(v@.subrange(0, v@.len() as int) =~= v@);
            return string_of(&v, 0, v.len());
        }
        i -= 1;
    }
}

// ----------------------------------------------------------- lines and words

/// `s` without the carriage return it ends with.
pub open spec fn without_cr(s: Seq<char>) -> Seq<char> {
    if s.len() > 0 && s.last() == '\r' {
        s.drop_last()
    } else {
        s
    }
}

/// The lines of `s`, each without its end of line.
pub open spec fn lines_of(s: Seq<char>) -> Seq<Seq<char>>
    decreases s.len(),
    via lines_of_shorter
{
    let i = first_index(s, '\n');
    if s.len() == 0 {
        Seq::empty()
    } else if i >= s.len() {
        seq![s]
    } else {
        seq![without_cr(s.take(i))] + lines_of(s.skip(i + 1))
    }
}

#[via_fn]
proof fn lines_of_shorter(s: Seq<char>) {
    lemma_first_index(s, '\n');
}

/// The lines of `s`, each without its end of line.
pub fn lines(s: &str) -> (r: Vec<String>)
    ensures
        views(r@) == lines_of(s@),
{
    let v = chars_of(s);
    let mut out: Vec<String> = Vec::new();
    let mut from: usize = 0;
    assert(v@.skip(0) =~= v@);
    assert(views(out@) + lines_of(v@) =~= lines_of(v@));
    while from < v.len()
        invariant
            from <= v@.len(),
            views(out@) + lines_of(v@.skip(from as int)) == lines_of(s@),
        decreases v@.len() - from,
    {
        let i: usize = find_from(&v, '\n', from);
        let ghost rest = v@.skip(from as int);
        let ghost before = views(out@);
        if i == v.len() {
            let part = string_of(&v, from, i);
            assert(part@ =~= rest);
            out.push(part);
            assert(views(out@) =~= before.push(part@));
            assert(before + seq![rest] =~= before.push(rest));
            from = i;
            assert(v@.skip(i as int) =~= Seq::<char>::empty());
            assert(before.push(rest) + Seq::<Seq<char>>::empty() =~= before.push(rest));
        } else {
            let to: usize = if i > from && v[i - 1] == '\r' {
                i - 1
            } else {
                i
            };
            let part = string_of(&v, from, to);
            assert(part@ =~= without_cr(rest.take(i - from)));
            out.push(part);
            assert(views(out@) =~= before.push(part@));
            proof {
                assert(rest.skip(i - from + 1) =~= v@.skip(i + 1));
                assert(before + (seq![part@] + lines_of(v@.skip(i + 1))) =~= before.push(part@)
                    + lines_of(v@.skip(i + 1)));
            }
            from = i + 1;
        }
    }
    assert(v@.skip(from as int) =~= Seq::<char>::empty());
    assert(views(out@) + Seq::<Seq<char>>::empty() =~= views(out@));
    out
}

/// How many characters `s` has before its first white space.
pub open spec fn word_len(s: Seq<char>) -> int
    decreases s.len(),
{
    if s.len() == 0 || white_space(s[0]) {
        0
    } else {
        1 + word_len(s.drop_first())
    }
}

proof fn lemma_word_len(s: Seq<char>)
    ensures
        0 <= word_len(s) <= s.len(),
        s.len() > 0 && !white_space(s[0]) ==> word_len(s) >= 1,
    decreases s.len(),
{
    if s.len() > 0 && !white_space(s[0]) {
        lemma_word_len(s.drop_first());
    }
}

proof fn lemma_trim_start_len(s: Seq<char>)
    ensures
        trim_start(s).len() <= s.len(),
        trim_start(s).len() > 0 ==> !white_space(trim_start(s)[0]),
    decreases s.len(),
{
    if s.len() > 0 && white_space(s[0]) {
        lemma_trim_start_len(s.drop_first());
    }
}

/// The parts of `s` between white space, none of them empty.
pub open spec fn words_of(s: Seq<char>) -> Seq<Seq<char>>
    decreases s.len(),
    via words_of_shorter
{
    let t = trim_start(s);
    let k = word_len(t);
    if t.len() == 0 {
        Seq::empty()
    } else {
        seq![t.take(k)] + words_of(t.skip(k))
    }
}

#[via_fn]
proof fn words_of_shorter(s: Seq<char>) {
    lemma_trim_start_len(s);
    lemma_word_len(trim_start(s));
}

/// The parts of `s` between white space, none of them empty.
pub fn words(s: &str) -> (r: Vec<String>)
    ensures
        views(r@) == words_of(s@),
{
    let v = chars_of(s);
    let mut out: Vec<String> = Vec::new();
    let mut from: usize = 0;
    assert(v@.skip(0) =~= v@);
    assert(views(out@) + words_of(v@) =~= words_of(v@));
    loop
        invariant_except_break
            from <= v@.len(),
            views(out@) + words_of(v@.skip(from as int)) == words_of(s@),
        ensures
            views(out@) == words_of(s@),
        decreases v@.len() - from,
    {
        let ghost rest = v@.skip(from as int);
        let mut start: usize = from;
        while start < v.len() && is_white_space(v[start])
            invariant
                from <= start <= v@.len(),
                rest == v@.skip(from as int),
                trim_start(rest) == trim_start(v@.skip(start as int)),
            decreases v@.len() - start,
        {
            assert(v@.skip(start as int).drop_first() =~= v@.skip(start + 1));
            start += 1;
        }
        let ghost t = v@.skip(start as int);
        assert(trim_start(rest) == t);
        if start == v.len() {
            assert(views(out@) + Seq::<Seq<char>>::empty() =~= views(out@));
            break ;
        }
        let mut end: usize = start;
        while end < v.len() && !is_white_space(v[end])
            invariant
                start <= end <= v@.len(),
                t == v@.skip(start as int),
                word_len(t) == end - start + word_len(v@.skip(end as int)),
            decreases v@.len() - end,
        {
            assert(v@.skip(end as int).drop_first() =~= v@.skip(end + 1));
            end += 1;
        }
        assert(word_len(t) == end - start);
        let ghost before = views(out@);
        let part = string_of(&v, start, end);
        assert(part@ =~= t.take(end - start));
        out.push(part);
        proof {
            assert(views(out@) =~= before.push(part@));
            assert(t.skip(end - start) =~= v@.skip(end as int));
            assert(before + (seq![part@] + words_of(v@.skip(end as int))) =~= before.push(part@)
                + words_of(v@.skip(end as int)));
            reveal_with_fuel(word_len, 2);
        }
        from = end;
    }
    out
}

// ------------------------------------------------------------------------ order

/// The order of texts: by the first character that differs, and a text before what it begins.
pub open spec fn text_le(a: Seq<char>, b: Seq<char>) -> bool
    decreases a.len(),
{
    if a.len() == 0 {
        true
    } else if b.len() == 0 {
        false
    } else if a[0] != b[0] {
        a[0] < b[0]
    } else {
        text_le(a.drop_first(), b.drop_first())
    }
}

/// Of two texts one does not come behind the other.
pub proof fn lemma_text_le_total(a: Seq<char>, b: Seq<char>)
    ensures
        text_le(a, b) || text_le(b, a),
    decreases a.len(),
{
    if a.len() > 0 && b.len() > 0 && a[0] == b[0] {
        lemma_text_le_total(a.drop_first(), b.drop_first());
    }
}

/// What does not come behind a text does not come behind what that does not come behind.
pub proof fn lemma_text_le_trans(a: Seq<char>, b: Seq<char>, c: Seq<char>)
    requires
        text_le(a, b),
        text_le(b, c),
    ensures
        text_le(a, c),
    decreases a.len(),
{
    if a.len() > 0 && b.len() > 0 && c.len() > 0 && a[0] == b[0] && b[0] == c[0] {
        lemma_text_le_trans(a.drop_first(), b.drop_first(), c.drop_first());
    }
}

/// Whether `a` does not come behind `b`.
pub fn not_behind(a: &str, b: &str) -> (r: bool)
    ensures
        r == text_le(a@, b@),
{
    let v = chars_of(a);
    let w = chars_of(b);
    let mut i: usize = 0;
    assert(v@.skip(0) =~= v@);
    assert(w@.skip(0) =~= w@);
    while i < v.len()
        invariant
            i <= v@.len(),
            i <= w@.len(),
            text_le(a@, b@) == text_le(v@.skip(i as int), w@.skip(i as int)),
        decreases v@.len() - i,
    {
        if i == w.len() {
            return false;
        }
        if v[i] != w[i] {
            assert(v@.skip(i as int)[0] == v@[i as int] && w@.skip(i as int)[0] == w@[i as int]);
            return v[i] < w[i];
        }
        assert(v@.skip(i as int).drop_first() =~= v@.skip(i + 1));
        assert(w@.skip(i as int).drop_first() =~= w@.skip(i + 1));
        i += 1;
    }
    true
}

/// Lowering a text turns its capitals of ASCII into their small letters and nothing else; what is
/// lowered stays as it is.
pub proof fn law_lowering_touches_only_capitals(s: Seq<char>)
    ensures
        lowered(s).len() == s.len(),
        forall|i: int|
            0 <= i < s.len() && 'A' <= s[i] <= 'Z' ==> (#[trigger] lowered(s)[i]) as int == s[i] as int
                + ('a' as int - 'A' as int),
        forall|i: int|
            0 <= i < s.len() && !('A' <= s[i] <= 'Z') ==> #[trigger] lowered(s)[i] == s[i],
        lowered(lowered(s)) == lowered(s),
{
    assert forall|i: int| 0 <= i < s.len() && 'A' <= s[i] <= 'Z' implies (#[trigger] lowered(
        s,
    )[i]) as int == s[i] as int + ('a' as int - 'A' as int) by {
        let c = s[i];
        assert(lowered(s)[i] == small(c));
    }
    assert(lowered(lowered(s)) =~= lowered(s));
}

/// What stands behind the last place of a text begins right behind that place; a text in which it does
/// not stand is left whole.
pub proof fn law_behind_the_last_place(s: Seq<char>, p: Seq<char>, i: int)
    requires
        p.len() > 0,
    ensures
        !holds(s, p) ==> after_last(s, p) == s,
        stands_at(s, p, i) && (forall|j: int| j > i ==> !#[trigger] stands_at(s, p, j)) ==> after_last(
            s,
            p,
        ) == s.skip(i + p.len()),
{
    lemma_last_at(s, p, s.len() - p.len());
    let k = last_at(s, p, s.len() - p.len());
    if stands_at(s, p, i) && (forall|j: int| j > i ==> !#[trigger] stands_at(s, p, j)) {
        assert(k >= i);
        if k > i {
            assert(!stands_at(s, p, k));
        }
    }
    if !holds(s, p) && k >= 0 {
        assert(stands_at(s, p, k));
    }
}

proof fn lemma_last_at(s: Seq<char>, p: Seq<char>, i: int)
    ensures
        last_at(s, p, i) == -1 || (0 <= last_at(s, p, i) <= i && stands_at(s, p, last_at(s, p, i))),
        forall|j: int|
            last_at(s, p, i) < j <= i ==> !#[trigger] stands_at(s, p, j),
    decreases i + 1,
{
    if i >= 0 && !stands_at(s, p, i) {
        lemma_last_at(s, p, i - 1);
    }
}

/// Behind the last of a character stands what holds it no more.
pub proof fn law_behind_the_last_character(a: Seq<char>, c: char, b: Seq<char>)
    requires
        !b.contains(c),
    ensures
        after_last(a + seq![c] + b, seq![c]) == b,
{
    let s = a + seq![c] + b;
    let n = a.len() as int;
    assert(s.subrange(n, n + 1) =~= seq![c]);
    assert forall|j: int| j > n implies !#[trigger] stands_at(s, seq![c], j) by {
        if stands_at(s, seq![c], j) {
            assert(s.subrange(j, j + 1)[0] == c);
            assert(s[j] == b[j - n - 1]);
            assert(b.contains(b[j - n - 1]));
        }
    }
    law_behind_the_last_place(s, seq![c], n);
    assert(s.skip(n + 1) =~= b);
}

/// A text is read line by line: a line ends at its line feed, a carriage return before that is of the
/// end, and what stands behind the last line feed is a line where it is not empty.
pub proof fn law_lines_end_at_their_line_feed(line: Seq<char>, rest: Seq<char>)
    requires
        !line.contains('\n'),
    ensures
        lines_of(Seq::empty()).len() == 0,
        line.len() > 0 ==> lines_of(line) == seq![line],
        (line.len() == 0 || line.last() != '\r') ==> lines_of(line + seq!['\n'] + rest) == seq![line]
            + lines_of(rest),
        lines_of(line + seq!['\r', '\n'] + rest) == seq![line] + lines_of(rest),
{
    let n = line.len() as int;
    assert forall|j: int| 0 <= j < n implies line[j] != '\n' by {
        assert(line.contains(line[j]));
    }
    lemma_first_index_is(line, '\n', n);
    let s = line + seq!['\n'] + rest;
    lemma_first_index_is(s, '\n', n);
    assert(s.take(n) =~= line);
    assert(s.skip(n + 1) =~= rest);
    let t = line + seq!['\r', '\n'] + rest;
    assert(t[n + 1] == '\n');
    lemma_first_index_is(t, '\n', n + 1);
    assert(t.take(n + 1) =~= line.push('\r'));
    assert(line.push('\r').drop_last() =~= line);
    assert(t.skip(n + 2) =~= rest);
}

/// The words of a text are what stands between white space, in their order: white space in front is no
/// word, and a word ends where white space follows it.
pub proof fn law_words_stand_between_white_space(word: Seq<char>, c: char, rest: Seq<char>)
    requires
        word.len() > 0,
        forall|i: int| 0 <= i < word.len() ==> !white_space(#[trigger] word[i]),
        white_space(c),
    ensures
        words_of(Seq::empty()).len() == 0,
        words_of(word) == seq![word],
        words_of(seq![c] + rest) == words_of(rest),
        words_of(word + seq![c] + rest) == seq![word] + words_of(rest),
{
    let front = seq![c] + rest;
    assert(front.drop_first() =~= rest);
    assert(trim_start(front) == trim_start(rest));
    let n = word.len() as int;
    assert(trim_start(word) == word);
    lemma_word_is(word, n);
    assert(word.take(n) =~= word);
    assert(word.skip(n) =~= Seq::<char>::empty());
    assert(words_of(word.skip(n)) =~= Seq::<Seq<char>>::empty());
    let s = word + seq![c] + rest;
    assert(s[0] == word[0]);
    assert(trim_start(s) == s);
    assert forall|i: int| 0 <= i < n implies !white_space(#[trigger] s[i]) by {
        assert(s[i] == word[i]);
    }
    assert(s[n] == c);
    lemma_word_is(s, n);
    assert(s.take(n) =~= word);
    assert(s.skip(n) =~= front);
    assert(words_of(front) == words_of(rest));
}

proof fn lemma_word_is(s: Seq<char>, n: int)
    requires
        0 <= n <= s.len(),
        forall|i: int| 0 <= i < n ==> !white_space(#[trigger] s[i]),
        n < s.len() ==> white_space(s[n]),
    ensures
        word_len(s) == n,
    decreases s.len(),
{
    if n > 0 {
        let rest = s.drop_first();
        assert(!white_space(s[0]));
        assert forall|i: int| 0 <= i < n - 1 implies !white_space(#[trigger] rest[i]) by {
            assert(rest[i] == s[i + 1]);
        }
        if n < s.len() {
            assert(rest[n - 1] == s[n]);
        }
        lemma_word_is(rest, n - 1);
    }
}

} // verus!
